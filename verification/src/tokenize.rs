//! Splitting comment text into words, where a backtick-delimited code span is one word.
use vstd::prelude::*;
use crate::comment::{lemma_run_len_bound, run_len};
use crate::text::{
    is_ascii_whitespace, is_ascii_ws, seqs_of, slice_vec, append_chars, chars_of, strings_of,
    strings_view, join, spaces, all_chars, is_ws,
};

verus! {

/// `tokens` with `cur` added when `cur` is not empty.
pub open spec fn flush(tokens: Seq<Seq<char>>, cur: Seq<char>) -> Seq<Seq<char>> {
    if cur.len() > 0 {
        tokens.push(cur)
    } else {
        tokens
    }
}

/// Length of the backtick run that starts at position `i` of `s`.
pub open spec fn tick_run(s: Seq<char>, i: int) -> nat {
    run_len(s.skip(i), '`')
}

/// Tokenizes `s` from position `i` on, given the tokens found so far, the token being built, and
/// the length of the backtick run that opened the span we are in (`None` outside any span).
///
/// A backtick run opens a span when outside one, and closes the span when it is exactly as long
/// as the run that opened it; inside a span every character belongs to the token. Outside a span,
/// ASCII whitespace ends the current token.
pub open spec fn tok_from(
    s: Seq<char>,
    i: int,
    tokens: Seq<Seq<char>>,
    cur: Seq<char>,
    open: Option<nat>,
) -> Seq<Seq<char>>
    decreases s.len() - i,
{
    if i < 0 || i >= s.len() {
        flush(tokens, cur)
    } else if s[i] == '`' {
        let n = tick_run(s, i);
        proof {
            lemma_run_len_bound(s.skip(i), '`');
            assert(s.skip(i)[0] == s[i]);
        }
        let next_open = match open {
            Some(cl) => if n == cl {
                None
            } else {
                Some(cl)
            },
            None => Some(n),
        };
        tok_from(s, i + n, tokens, cur + s.subrange(i, i + n), next_open)
    } else if open is None && is_ascii_ws(s[i]) {
        tok_from(s, i + 1, flush(tokens, cur), Seq::empty(), None)
    } else {
        tok_from(s, i + 1, tokens, cur.push(s[i]), open)
    }
}

/// The words of `s`: split at ASCII whitespace, except inside backtick-delimited spans.
pub open spec fn tokenize(s: Seq<char>) -> Seq<Seq<char>> {
    tok_from(s, 0, Seq::empty(), Seq::empty(), None)
}

pub open spec fn open_view(o: Option<usize>) -> Option<nat> {
    match o {
        Some(c) => Some(c as nat),
        None => None,
    }
}

/// Splits text held as characters into its words.
pub fn tokenize_chars(s: &[char]) -> (r: Vec<Vec<char>>)
    ensures
        seqs_of(r@) == tokenize(s@),
{
    let mut tokens: Vec<Vec<char>> = Vec::new();
    let mut current: Vec<char> = Vec::new();
    let mut close_len: Option<usize> = None;
    let mut i: usize = 0;
    assert(seqs_of(tokens@) =~= Seq::<Seq<char>>::empty());
    assert(current@ =~= Seq::<char>::empty());
    while i < s.len()
        invariant
            i <= s.len(),
            tok_from(s@, i as int, seqs_of(tokens@), current@, open_view(close_len)) == tokenize(
                s@,
            ),
        decreases s.len() - i,
    {
        if s[i] == '`' {
            let start = i;
            let n = run_len_from(s, start, '`');
            proof {
                lemma_run_len_bound(s@.skip(start as int), '`');
                assert(s@.skip(start as int)[0] == s@[start as int]);
            }
            let run = slice_vec(s, start, start + n);
            append_chars(&mut current, &run);
            close_len = match close_len {
                Some(cl) => if n == cl {
                    None
                } else {
                    Some(cl)
                },
                None => Some(n),
            };
            i = start + n;
        } else if close_len.is_none() && is_ascii_whitespace(s[i]) {
            let ghost old_tokens = seqs_of(tokens@);
            if current.len() > 0 {
                let t = current;
                tokens.push(t);
                assert(seqs_of(tokens@) =~= old_tokens.push(t@));
            }
            current = Vec::new();
            assert(current@ =~= Seq::<char>::empty());
            i = i + 1;
        } else {
            current.push(s[i]);
            i = i + 1;
        }
    }
    let ghost old_tokens = seqs_of(tokens@);
    let ghost last = current@;
    if current.len() > 0 {
        tokens.push(current);
        assert(seqs_of(tokens@) =~= old_tokens.push(last));
    }
    tokens
}

/// Length of the run of `c` that starts at position `start`.
fn run_len_from(s: &[char], start: usize, c: char) -> (n: usize)
    requires
        start <= s.len(),
    ensures
        n == run_len(s@.skip(start as int), c),
        start + n <= s.len(),
{
    let mut i: usize = start;
    while i < s.len() && s[i] == c
        invariant
            start <= i <= s.len(),
            run_len(s@.skip(start as int), c) == (i - start) + run_len(s@.skip(i as int), c),
        decreases s.len() - i,
    {
        assert(s@.skip(i as int).drop_first() =~= s@.skip(i + 1));
        i = i + 1;
    }
    i - start
}

/// Splits text into tokens at whitespace boundaries, but keeps backtick-delimited spans (`` ` `` or
/// ` `` ` as single tokens even if they contain spaces.
pub fn tokenize_preserving_backticks(text: &str) -> (r: Vec<String>)
    ensures
        strings_view(r@) == tokenize(text@),
{
    let chars = chars_of(text);
    let tokens = tokenize_chars(&chars);
    strings_of(&tokens)
}

proof fn lemma_tok_from_nonempty(
    s: Seq<char>,
    i: int,
    tokens: Seq<Seq<char>>,
    cur: Seq<char>,
    open: Option<nat>,
)
    requires
        forall|k: int| 0 <= k < tokens.len() ==> (#[trigger] tokens[k]).len() > 0,
    ensures
        forall|k: int|
            0 <= k < tok_from(s, i, tokens, cur, open).len() ==> (#[trigger] tok_from(
                s,
                i,
                tokens,
                cur,
                open,
            )[k]).len() > 0,
    decreases s.len() - i,
{
    lemma_flush_nonempty(tokens, cur);
    if i < 0 || i >= s.len() {
    } else if s[i] == '`' {
        let n = tick_run(s, i);
        lemma_run_len_bound(s.skip(i), '`');
        assert(s.skip(i)[0] == s[i]);
        let next_open = match open {
            Some(cl) => if n == cl {
                None
            } else {
                Some(cl)
            },
            None => Some(n),
        };
        lemma_tok_from_nonempty(s, i + n, tokens, cur + s.subrange(i, i + n), next_open);
        assert(tok_from(s, i, tokens, cur, open) == tok_from(s, i + n, tokens, cur + s.subrange(i, i + n), next_open));
    } else if open is None && is_ascii_ws(s[i]) {
        lemma_tok_from_nonempty(s, i + 1, flush(tokens, cur), Seq::empty(), None);
        assert(tok_from(s, i, tokens, cur, open) == tok_from(s, i + 1, flush(tokens, cur), Seq::empty(), None));
    } else {
        lemma_tok_from_nonempty(s, i + 1, tokens, cur.push(s[i]), open);
        assert(tok_from(s, i, tokens, cur, open) == tok_from(s, i + 1, tokens, cur.push(s[i]), open));
    }
}

proof fn lemma_flush_nonempty(tokens: Seq<Seq<char>>, cur: Seq<char>)
    requires
        forall|k: int| 0 <= k < tokens.len() ==> (#[trigger] tokens[k]).len() > 0,
    ensures
        forall|k: int|
            0 <= k < flush(tokens, cur).len() ==> (#[trigger] flush(tokens, cur)[k]).len() > 0,
{
    if cur.len() > 0 {
        assert forall|k: int| 0 <= k < flush(tokens, cur).len() implies (#[trigger] flush(
            tokens,
            cur,
        )[k]).len() > 0 by {
            if k < tokens.len() {
                assert(flush(tokens, cur)[k] == tokens[k]);
            }
        }
    }
}

/// Every word that tokenization produces is non-empty.
pub proof fn tokens_are_nonempty(s: Seq<char>)
    ensures
        forall|k: int| 0 <= k < tokenize(s).len() ==> (#[trigger] tokenize(s)[k]).len() > 0,
{
    lemma_tok_from_nonempty(s, 0, Seq::empty(), Seq::empty(), None);
}

pub open spec fn no_ascii_ws(t: Seq<char>) -> bool {
    forall|k: int| 0 <= k < t.len() ==> !is_ascii_ws(#[trigger] t[k])
}

pub open spec fn not_ascii_ws(c: char) -> bool {
    !is_ascii_ws(c)
}

proof fn lemma_tok_from_plain(s: Seq<char>, i: int, tokens: Seq<Seq<char>>, cur: Seq<char>)
    requires
        0 <= i <= s.len(),
        forall|k: int| i <= k < s.len() ==> #[trigger] s[k] != '`',
        no_ascii_ws(cur),
        forall|k: int| 0 <= k < tokens.len() ==> no_ascii_ws(#[trigger] tokens[k]),
    ensures
        tok_from(s, i, tokens, cur, None).flatten() == tokens.flatten() + cur + s.skip(i).filter(
            |c: char| not_ascii_ws(c),
        ),
        forall|k: int|
            0 <= k < tok_from(s, i, tokens, cur, None).len() ==> no_ascii_ws(
                #[trigger] tok_from(s, i, tokens, cur, None)[k],
            ),
    decreases s.len() - i,
{
    let f = |c: char| not_ascii_ws(c);
    if i >= s.len() {
        assert(s.skip(i) =~= Seq::<char>::empty());
        reveal(Seq::filter);
        assert(s.skip(i).filter(f) =~= Seq::<char>::empty());
        lemma_flatten_push(tokens, cur);
        if cur.len() == 0 {
            assert(tokens.flatten() + cur + s.skip(i).filter(f) =~= tokens.flatten());
        } else {
            assert(tokens.flatten() + cur + s.skip(i).filter(f) =~= tokens.flatten() + cur);
        }
    } else {
        assert(s.skip(i) =~= seq![s[i]] + s.skip(i + 1));
        s.skip(i + 1).lemma_filter_prepend(s[i], f);
        if is_ascii_ws(s[i]) {
            let t2 = flush(tokens, cur);
            lemma_flatten_push(tokens, cur);
            assert(t2.flatten() == tokens.flatten() + cur);
            lemma_tok_from_plain(s, i + 1, t2, Seq::empty());
            assert(t2.flatten() + Seq::<char>::empty() =~= t2.flatten());
            assert(tokens.flatten() + cur + s.skip(i).filter(f) =~= tokens.flatten() + cur
                + s.skip(i + 1).filter(f));
        } else {
            lemma_tok_from_plain(s, i + 1, tokens, cur.push(s[i]));
            assert(tokens.flatten() + cur.push(s[i]) + s.skip(i + 1).filter(f) =~= tokens.flatten()
                + cur + s.skip(i).filter(f));
        }
    }
}

/// `flatten` of a sequence with one more part (a non-empty part is appended, an empty one is not).
pub proof fn lemma_flatten_push(tokens: Seq<Seq<char>>, cur: Seq<char>)
    ensures
        flush(tokens, cur).flatten() == tokens.flatten() + cur,
        tokens.push(cur).flatten() == tokens.flatten() + cur,
{
    tokens.push(cur).lemma_flatten_and_flatten_alt_are_equivalent();
    tokens.lemma_flatten_and_flatten_alt_are_equivalent();
    assert(tokens.push(cur).drop_last() =~= tokens);
    if cur.len() == 0 {
        assert(tokens.flatten() + cur =~= tokens.flatten());
    }
}

/// Text without backticks is split exactly at ASCII whitespace: the words are non-empty, hold no
/// ASCII whitespace, and in order they spell the text with its whitespace removed.
pub proof fn plain_text_splits_at_whitespace(s: Seq<char>)
    requires
        forall|k: int| 0 <= k < s.len() ==> #[trigger] s[k] != '`',
    ensures
        forall|k: int| 0 <= k < tokenize(s).len() ==> (#[trigger] tokenize(s)[k]).len() > 0,
        forall|k: int| 0 <= k < tokenize(s).len() ==> no_ascii_ws(#[trigger] tokenize(s)[k]),
        tokenize(s).flatten() == s.filter(|c: char| not_ascii_ws(c)),
{
    tokens_are_nonempty(s);
    lemma_tok_from_plain(s, 0, Seq::empty(), Seq::empty());
    assert(s.skip(0) =~= s);
    assert(Seq::<Seq<char>>::empty().flatten() =~= Seq::<char>::empty());
    assert(Seq::<Seq<char>>::empty().flatten() + Seq::<char>::empty() + s.filter(
        |c: char| not_ascii_ws(c),
    ) =~= s.filter(|c: char| not_ascii_ws(c)));
}

pub open spec fn visible() -> spec_fn(char) -> bool {
    |c: char| not_ascii_ws(c)
}

proof fn lemma_tok_from_visible(
    s: Seq<char>,
    i: int,
    tokens: Seq<Seq<char>>,
    cur: Seq<char>,
    open: Option<nat>,
)
    requires
        0 <= i <= s.len(),
    ensures
        tok_from(s, i, tokens, cur, open).flatten().filter(visible()) == (tokens.flatten()
            + cur).filter(visible()) + s.skip(i).filter(visible()),
    decreases s.len() - i,
{
    let f = visible();
    if i >= s.len() {
        assert(s.skip(i) =~= Seq::<char>::empty());
        reveal(Seq::filter);
        assert(s.skip(i).filter(f) =~= Seq::<char>::empty());
        lemma_flatten_push(tokens, cur);
        assert((tokens.flatten() + cur).filter(f) + s.skip(i).filter(f) =~= (tokens.flatten()
            + cur).filter(f));
    } else if s[i] == '`' {
        let n = tick_run(s, i);
        lemma_run_len_bound(s.skip(i), '`');
        assert(s.skip(i)[0] == s[i]);
        let next_open = match open {
            Some(cl) => if n == cl {
                None
            } else {
                Some(cl)
            },
            None => Some(n),
        };
        let run = s.subrange(i, i + n);
        lemma_tok_from_visible(s, i + n, tokens, cur + run, next_open);
        assert(tok_from(s, i, tokens, cur, open) == tok_from(s, i + n, tokens, cur + run, next_open));
        assert(s.skip(i) =~= run + s.skip(i + n));
        assert(tokens.flatten() + (cur + run) =~= (tokens.flatten() + cur) + run);
        Seq::filter_distributes_over_add(tokens.flatten() + cur, run, f);
        Seq::filter_distributes_over_add(run, s.skip(i + n), f);
        assert((tokens.flatten() + cur).filter(f) + run.filter(f) + s.skip(i + n).filter(f)
            =~= (tokens.flatten() + cur).filter(f) + (run.filter(f) + s.skip(i + n).filter(f)));
    } else {
        assert(s.skip(i) =~= seq![s[i]] + s.skip(i + 1));
        s.skip(i + 1).lemma_filter_prepend(s[i], f);
        if open is None && is_ascii_ws(s[i]) {
            let t2 = flush(tokens, cur);
            lemma_tok_from_visible(s, i + 1, t2, Seq::empty(), None);
            assert(tok_from(s, i, tokens, cur, open) == tok_from(s, i + 1, t2, Seq::empty(), None));
            lemma_flatten_push(tokens, cur);
            assert(t2.flatten() + Seq::<char>::empty() =~= tokens.flatten() + cur);
            assert(seq![s[i]].filter(f) =~= Seq::<char>::empty()) by {
                reveal(Seq::filter);
                assert(seq![s[i]].drop_last() =~= Seq::<char>::empty());
            }
        } else {
            lemma_tok_from_visible(s, i + 1, tokens, cur.push(s[i]), open);
            assert(tok_from(s, i, tokens, cur, open) == tok_from(s, i + 1, tokens, cur.push(s[i]), open));
            assert(tokens.flatten() + cur.push(s[i]) =~= (tokens.flatten() + cur) + seq![s[i]]);
            Seq::filter_distributes_over_add(tokens.flatten() + cur, seq![s[i]], f);
            assert((tokens.flatten() + cur).filter(f) + seq![s[i]].filter(f) + s.skip(i + 1).filter(
                f,
            ) =~= (tokens.flatten() + cur).filter(f) + (seq![s[i]].filter(f) + s.skip(i + 1).filter(
                f,
            )));
        }
    }
}

/// Tokenizing drops no character other than ASCII whitespace and reorders nothing: the words,
/// taken together, hold every other character of the text in order.
pub proof fn tokens_keep_visible_text(s: Seq<char>)
    ensures
        tokenize(s).flatten().filter(visible()) == s.filter(visible()),
{
    lemma_tok_from_visible(s, 0, Seq::empty(), Seq::empty(), None);
    assert(s.skip(0) =~= s);
    assert(Seq::<Seq<char>>::empty().flatten() =~= Seq::<char>::empty());
    reveal(Seq::filter);
    assert(Seq::<char>::empty().filter(visible()) =~= Seq::<char>::empty());
    assert(Seq::<Seq<char>>::empty().flatten() + Seq::<char>::empty() =~= Seq::<char>::empty());
}

/// `seps[0] + toks[0] + seps[1] + ... + toks[n - 1] + seps[n]`.
pub open spec fn interleave(seps: Seq<Seq<char>>, toks: Seq<Seq<char>>) -> Seq<char>
    decreases toks.len(),
{
    if toks.len() == 0 || seps.len() == 0 {
        if seps.len() > 0 {
            seps[0]
        } else {
            Seq::empty()
        }
    } else {
        interleave(seps.drop_last(), toks.drop_last()) + toks.last() + seps.last()
    }
}

pub open spec fn all_ascii_ws(t: Seq<char>) -> bool {
    forall|k: int| 0 <= k < t.len() ==> is_ascii_ws(#[trigger] t[k])
}

/// `s` is made of the words `toks` separated by the runs of ASCII whitespace `seps` (one before
/// the first word, one between each two words, one after the last): the separators between words
/// are not empty, and no word is empty or starts with ASCII whitespace.
pub open spec fn decomposes(s: Seq<char>, toks: Seq<Seq<char>>, seps: Seq<Seq<char>>) -> bool {
    &&& seps.len() == toks.len() + 1
    &&& s == interleave(seps, toks)
    &&& forall|k: int| 0 <= k < seps.len() ==> all_ascii_ws(#[trigger] seps[k])
    &&& forall|k: int| 0 < k < toks.len() ==> (#[trigger] seps[k]).len() > 0
    &&& forall|k: int|
        0 <= k < toks.len() ==> (#[trigger] toks[k]).len() > 0 && !is_ascii_ws(toks[k][0])
}

pub open spec fn decomp_inv(
    s: Seq<char>,
    i: int,
    toks: Seq<Seq<char>>,
    cur: Seq<char>,
    open: Option<nat>,
    seps: Seq<Seq<char>>,
) -> bool {
    &&& 0 <= i <= s.len()
    &&& seps.len() == toks.len() + 1
    &&& forall|k: int| 0 <= k < seps.len() ==> all_ascii_ws(#[trigger] seps[k])
    &&& forall|k: int| 0 < k < toks.len() ==> (#[trigger] seps[k]).len() > 0
    &&& forall|k: int|
        0 <= k < toks.len() ==> (#[trigger] toks[k]).len() > 0 && !is_ascii_ws(toks[k][0])
    &&& (toks.len() == 0 || seps.last().len() > 0)
    &&& s.take(i) == interleave(seps, toks) + cur
    &&& (cur.len() == 0 ==> open is None)
    &&& (cur.len() > 0 ==> !is_ascii_ws(cur[0]))
}

proof fn lemma_interleave_push(seps: Seq<Seq<char>>, toks: Seq<Seq<char>>, t: Seq<char>, g: Seq<char>)
    requires
        seps.len() == toks.len() + 1,
    ensures
        interleave(seps.push(g), toks.push(t)) == interleave(seps, toks) + t + g,
{
    assert(seps.push(g).drop_last() =~= seps);
    assert(toks.push(t).drop_last() =~= toks);
}

proof fn lemma_interleave_extend(seps: Seq<Seq<char>>, toks: Seq<Seq<char>>, c: char)
    requires
        seps.len() == toks.len() + 1,
    ensures
        interleave(seps.update(seps.len() - 1, seps.last().push(c)), toks) == interleave(seps, toks)
            .push(c),
{
    let s2 = seps.update(seps.len() - 1, seps.last().push(c));
    if toks.len() == 0 {
        assert(s2[0] == seps[0].push(c));
    } else {
        assert(s2.drop_last() =~= seps.drop_last());
        assert(s2.last() == seps.last().push(c));
        assert(interleave(s2, toks) == interleave(seps.drop_last(), toks.drop_last()) + toks.last()
            + seps.last().push(c));
        assert(interleave(seps.drop_last(), toks.drop_last()) + toks.last() + seps.last().push(c)
            =~= (interleave(seps.drop_last(), toks.drop_last()) + toks.last() + seps.last()).push(
            c,
        ));
    }
}

proof fn lemma_decomp(
    s: Seq<char>,
    i: int,
    toks: Seq<Seq<char>>,
    cur: Seq<char>,
    open: Option<nat>,
    seps: Seq<Seq<char>>,
) -> (r: Seq<Seq<char>>)
    requires
        decomp_inv(s, i, toks, cur, open, seps),
    ensures
        decomposes(s, tok_from(s, i, toks, cur, open), r),
    decreases s.len() - i,
{
    if i >= s.len() {
        assert(s.take(i) =~= s);
        if cur.len() > 0 {
            let t2 = toks.push(cur);
            let s2 = seps.push(Seq::empty());
            lemma_interleave_push(seps, toks, cur, Seq::empty());
            assert(interleave(seps, toks) + cur + Seq::<char>::empty() =~= interleave(seps, toks)
                + cur);
            assert forall|k: int| 0 <= k < s2.len() implies all_ascii_ws(#[trigger] s2[k]) by {
                if k < seps.len() {
                    assert(s2[k] == seps[k]);
                }
            }
            assert forall|k: int| 0 < k < t2.len() implies (#[trigger] s2[k]).len() > 0 by {
                assert(s2[k] == seps[k]);
                if k == toks.len() {
                    assert(seps[k] == seps.last());
                }
            }
            assert forall|k: int| 0 <= k < t2.len() implies (#[trigger] t2[k]).len() > 0
                && !is_ascii_ws(t2[k][0]) by {
                if k < toks.len() {
                    assert(t2[k] == toks[k]);
                }
            }
            s2
        } else {
            assert(interleave(seps, toks) + cur =~= interleave(seps, toks));
            seps
        }
    } else if s[i] == '`' {
        let n = tick_run(s, i);
        lemma_run_len_bound(s.skip(i), '`');
        assert(s.skip(i)[0] == s[i]);
        let next_open = match open {
            Some(cl) => if n == cl {
                None
            } else {
                Some(cl)
            },
            None => Some(n),
        };
        let run = s.subrange(i, i + n);
        assert(s.take(i + n) =~= s.take(i) + run);
        assert(interleave(seps, toks) + (cur + run) =~= interleave(seps, toks) + cur + run);
        assert(run[0] == s[i]);
        if cur.len() > 0 {
            assert((cur + run)[0] == cur[0]);
        }
        assert(tok_from(s, i, toks, cur, open) == tok_from(s, i + n, toks, cur + run, next_open));
        lemma_decomp(s, i + n, toks, cur + run, next_open, seps)
    } else if open is None && is_ascii_ws(s[i]) {
        assert(s.take(i + 1) =~= s.take(i).push(s[i]));
        assert(tok_from(s, i, toks, cur, open) == tok_from(
            s,
            i + 1,
            flush(toks, cur),
            Seq::empty(),
            None,
        ));
        if cur.len() > 0 {
            let t2 = toks.push(cur);
            let s2 = seps.push(seq![s[i]]);
            lemma_interleave_push(seps, toks, cur, seq![s[i]]);
            assert(interleave(seps, toks) + cur + seq![s[i]] =~= (interleave(seps, toks) + cur).push(
                s[i],
            ));
            assert(interleave(s2, t2) + Seq::<char>::empty() =~= interleave(s2, t2));
            assert forall|k: int| 0 <= k < s2.len() implies all_ascii_ws(#[trigger] s2[k]) by {
                if k < seps.len() {
                    assert(s2[k] == seps[k]);
                }
            }
            assert forall|k: int| 0 < k < t2.len() implies (#[trigger] s2[k]).len() > 0 by {
                assert(s2[k] == seps[k]);
                if k == toks.len() {
                    assert(seps[k] == seps.last());
                }
            }
            assert forall|k: int| 0 <= k < t2.len() implies (#[trigger] t2[k]).len() > 0
                && !is_ascii_ws(t2[k][0]) by {
                if k < toks.len() {
                    assert(t2[k] == toks[k]);
                }
            }
            assert(s2.last() == seq![s[i]]);
            lemma_decomp(s, i + 1, t2, Seq::empty(), None, s2)
        } else {
            let s2 = seps.update(seps.len() - 1, seps.last().push(s[i]));
            lemma_interleave_extend(seps, toks, s[i]);
            assert(interleave(seps, toks) + cur =~= interleave(seps, toks));
            assert(interleave(s2, toks) + Seq::<char>::empty() =~= interleave(s2, toks));
            assert forall|k: int| 0 <= k < s2.len() implies all_ascii_ws(#[trigger] s2[k]) by {
                if k < seps.len() - 1 {
                    assert(s2[k] == seps[k]);
                } else {
                    assert(s2[k] == seps.last().push(s[i]));
                    assert(seps.last() == seps[seps.len() - 1]);
                    assert forall|q: int| 0 <= q < s2[k].len() implies is_ascii_ws(
                        #[trigger] s2[k][q],
                    ) by {
                        if q < seps.last().len() {
                            assert(s2[k][q] == seps[seps.len() - 1][q]);
                        }
                    }
                }
            }
            assert forall|k: int| 0 < k < toks.len() implies (#[trigger] s2[k]).len() > 0 by {
                assert(s2[k] == seps[k]);
            }
            assert(flush(toks, cur) == toks);
            lemma_decomp(s, i + 1, toks, Seq::empty(), None, s2)
        }
    } else {
        assert(s.take(i + 1) =~= s.take(i).push(s[i]));
        assert(interleave(seps, toks) + cur.push(s[i]) =~= (interleave(seps, toks) + cur).push(s[i]));
        if cur.len() > 0 {
            assert(cur.push(s[i])[0] == cur[0]);
        }
        assert(tok_from(s, i, toks, cur, open) == tok_from(s, i + 1, toks, cur.push(s[i]), open));
        lemma_decomp(s, i + 1, toks, cur.push(s[i]), open, seps)
    }
}

/// The text is exactly its words separated by runs of ASCII whitespace: only separating
/// whitespace is dropped, the words appear whole and in order as contiguous pieces of the text,
/// and each word starts with a character that is not ASCII whitespace.
pub proof fn text_is_words_and_separators(s: Seq<char>) -> (seps: Seq<Seq<char>>)
    ensures
        decomposes(s, tokenize(s), seps),
{
    let seps0 = seq![Seq::<char>::empty()];
    assert(s.take(0) =~= Seq::<char>::empty());
    assert(interleave(seps0, Seq::empty()) == seps0[0]);
    assert(interleave(seps0, Seq::empty()) + Seq::<char>::empty() =~= Seq::<char>::empty());
    lemma_decomp(s, 0, Seq::empty(), Seq::empty(), None, seps0)
}

/// Text without backticks is tokenized exactly as `split_ascii_whitespace` splits it: into the
/// maximal runs of characters other than ASCII whitespace, in order.
pub proof fn plain_text_is_split_ascii_whitespace(s: Seq<char>) -> (seps: Seq<Seq<char>>)
    requires
        forall|k: int| 0 <= k < s.len() ==> #[trigger] s[k] != '`',
    ensures
        decomposes(s, tokenize(s), seps),
        forall|k: int| 0 <= k < tokenize(s).len() ==> no_ascii_ws(#[trigger] tokenize(s)[k]),
{
    plain_text_splits_at_whitespace(s);
    text_is_words_and_separators(s)
}

/// The span state after a backtick run of length `n`: a run opens a span when none is open, and
/// closes the open span when it is as long as the run that opened it.
pub open spec fn after_run(open: Option<nat>, n: nat) -> Option<nat> {
    match open {
        Some(cl) => if n == cl {
            None
        } else {
            Some(cl)
        },
        None => Some(n),
    }
}

/// Reading a word character by character: the span state before the pending backtick run, the
/// length of that run, and whether all ASCII whitespace met so far lay inside a span.
pub struct SpanScan {
    pub open: Option<nat>,
    pub run: nat,
    pub ok: bool,
}

pub open spec fn scan_step(st: SpanScan, c: char) -> SpanScan {
    if c == '`' {
        SpanScan { open: st.open, run: st.run + 1, ok: st.ok }
    } else {
        let open = if st.run > 0 {
            after_run(st.open, st.run)
        } else {
            st.open
        };
        SpanScan { open, run: 0, ok: st.ok && !(open is None && is_ascii_ws(c)) }
    }
}

pub open spec fn scan(t: Seq<char>) -> SpanScan
    decreases t.len(),
{
    if t.len() == 0 {
        SpanScan { open: None, run: 0, ok: true }
    } else {
        scan_step(scan(t.drop_last()), t.last())
    }
}

/// The span state at the end of a scan.
pub open spec fn scan_open(st: SpanScan) -> Option<nat> {
    if st.run > 0 {
        after_run(st.open, st.run)
    } else {
        st.open
    }
}

proof fn lemma_scan_run(x: Seq<char>, r: Seq<char>)
    requires
        forall|k: int| 0 <= k < r.len() ==> #[trigger] r[k] == '`',
    ensures
        scan(x + r) == (SpanScan { open: scan(x).open, run: scan(x).run + r.len(), ok: scan(x).ok }),
    decreases r.len(),
{
    if r.len() == 0 {
        assert(x + r =~= x);
    } else {
        assert((x + r).drop_last() =~= x + r.drop_last());
        assert((x + r).last() == r[r.len() - 1]);
        lemma_scan_run(x, r.drop_last());
    }
}

pub open spec fn span_inv(
    s: Seq<char>,
    i: int,
    toks: Seq<Seq<char>>,
    cur: Seq<char>,
    open: Option<nat>,
) -> bool {
    &&& 0 <= i <= s.len()
    &&& forall|k: int|
        0 <= k < toks.len() ==> (#[trigger] scan(toks[k])).ok && scan_open(scan(toks[k])) is None
    &&& scan(cur).ok
    &&& scan_open(scan(cur)) == open
    &&& (scan(cur).run > 0 ==> i >= s.len() || s[i] != '`')
}

proof fn lemma_spans(s: Seq<char>, i: int, toks: Seq<Seq<char>>, cur: Seq<char>, open: Option<nat>)
    requires
        span_inv(s, i, toks, cur, open),
    ensures
        ({
            let r = tok_from(s, i, toks, cur, open);
            &&& forall|k: int| 0 <= k < r.len() ==> (#[trigger] scan(r[k])).ok
            &&& forall|k: int| 0 <= k < r.len() - 1 ==> scan_open(#[trigger] scan(r[k])) is None
        }),
    decreases s.len() - i,
{
    if i >= s.len() {
        let r = flush(toks, cur);
        assert forall|k: int| 0 <= k < r.len() implies (#[trigger] scan(r[k])).ok by {
            if k < toks.len() {
                assert(r[k] == toks[k]);
            }
        }
        assert forall|k: int| 0 <= k < r.len() - 1 implies scan_open(#[trigger] scan(r[k])) is None by {
            assert(r[k] == toks[k]);
        }
    } else if s[i] == '`' {
        let n = tick_run(s, i);
        lemma_run_len_bound(s.skip(i), '`');
        assert(s.skip(i)[0] == s[i]);
        let run = s.subrange(i, i + n);
        assert forall|k: int| 0 <= k < run.len() implies #[trigger] run[k] == '`' by {
            assert(run[k] == s.skip(i)[k]);
        }
        lemma_scan_run(cur, run);
        assert(scan(cur).run == 0);
        if i + n < s.len() {
            assert(s[i + n] == s.skip(i)[n as int]);
        }
        let next_open = after_run(open, n);
        assert(tok_from(s, i, toks, cur, open) == tok_from(s, i + n, toks, cur + run, next_open));
        lemma_spans(s, i + n, toks, cur + run, next_open);
    } else if open is None && is_ascii_ws(s[i]) {
        let t2 = flush(toks, cur);
        assert forall|k: int| 0 <= k < t2.len() implies (#[trigger] scan(t2[k])).ok && scan_open(
            scan(t2[k]),
        ) is None by {
            if k < toks.len() {
                assert(t2[k] == toks[k]);
            }
        }
        assert(scan(Seq::<char>::empty()) == SpanScan { open: None, run: 0, ok: true });
        assert(tok_from(s, i, toks, cur, open) == tok_from(s, i + 1, t2, Seq::empty(), None));
        lemma_spans(s, i + 1, t2, Seq::empty(), None);
    } else {
        let c2 = cur.push(s[i]);
        assert(c2.drop_last() =~= cur);
        assert(scan(c2) == scan_step(scan(cur), s[i]));
        assert(tok_from(s, i, toks, cur, open) == tok_from(s, i + 1, toks, c2, open));
        lemma_spans(s, i + 1, toks, c2, open);
    }
}

/// Backtick spans are never split: inside each word, ASCII whitespace occurs only within an open
/// span, and every word but the last ends with no span open (so the text is split exactly at the
/// whitespace outside spans).
pub proof fn spans_are_never_split(s: Seq<char>)
    ensures
        forall|k: int| 0 <= k < tokenize(s).len() ==> (#[trigger] scan(tokenize(s)[k])).ok,
        forall|k: int|
            0 <= k < tokenize(s).len() - 1 ==> scan_open(#[trigger] scan(tokenize(s)[k])) is None,
{
    assert(scan(Seq::<char>::empty()) == SpanScan { open: None, run: 0, ok: true });
    lemma_spans(s, 0, Seq::empty(), Seq::empty(), None);
}

pub(crate) proof fn lemma_scan_ok_prefix(t: Seq<char>, j: int)
    requires
        scan(t).ok,
        0 <= j <= t.len(),
    ensures
        scan(t.take(j)).ok,
    decreases t.len(),
{
    if j == t.len() {
        assert(t.take(j) =~= t);
    } else {
        assert(scan(t) == scan_step(scan(t.drop_last()), t.last()));
        assert(t.drop_last().take(j) =~= t.take(j));
        lemma_scan_ok_prefix(t.drop_last(), j);
    }
}

/// Reading a word `t` that stands at position `a` of `s` (and is not followed by a backtick)
/// builds the word up whole, with no split inside it, and ends in the span state the scan of `t`
/// gives.
proof fn lemma_tok_word(s: Seq<char>, a: int, t: Seq<char>, j: int, toks: Seq<Seq<char>>)
    requires
        0 <= a,
        a + t.len() <= s.len(),
        s.subrange(a, a + t.len()) == t,
        a + t.len() == s.len() || s[a + t.len()] != '`',
        scan(t).ok,
        0 <= j <= t.len(),
        scan(t.take(j)).run > 0 ==> j == t.len() || t[j] != '`',
    ensures
        tok_from(s, a + j, toks, t.take(j), scan_open(scan(t.take(j)))) == tok_from(
            s,
            a + t.len(),
            toks,
            t,
            scan_open(scan(t)),
        ),
    decreases t.len() - j,
{
    if j == t.len() {
        assert(t.take(j) =~= t);
    } else {
        let i = a + j;
        assert(s[i] == s.subrange(a, a + t.len())[j]);
        let tj = t.take(j);
        let o = scan_open(scan(tj));
        if t[j] == '`' {
            let n = tick_run(s, i);
            lemma_run_len_bound(s.skip(i), '`');
            assert(s.skip(i)[0] == s[i]);
            if n > t.len() - j {
                let q = t.len() - j;
                assert(s.skip(i)[q] == '`');
                assert(s.skip(i)[q] == s[a + t.len()]);
            }
            let run = s.subrange(i, i + n);
            assert forall|k: int| 0 <= k < n implies #[trigger] run[k] == t[j + k] by {
                assert(run[k] == s[i + k]);
                assert(s[i + k] == s.subrange(a, a + t.len())[j + k]);
            }
            assert(t.take(j + n) =~= tj + run);
            assert forall|k: int| 0 <= k < run.len() implies #[trigger] run[k] == '`' by {
                assert(run[k] == s.skip(i)[k]);
            }
            lemma_scan_run(tj, run);
            if j + n < t.len() {
                assert(t[j + n] == s.subrange(a, a + t.len())[j + n]);
                assert(s.skip(i)[n as int] == s[i + n]);
            }
            assert(tok_from(s, i, toks, tj, o) == tok_from(s, i + n, toks, tj + run, after_run(o, n)));
            lemma_tok_word(s, a, t, j + n, toks);
        } else {
            let t1 = t.take(j + 1);
            assert(t1.drop_last() =~= tj);
            assert(scan(t1) == scan_step(scan(tj), t[j]));
            lemma_scan_ok_prefix(t, j + 1);
            assert(tj.push(t[j]) =~= t1);
            assert(tok_from(s, i, toks, tj, o) == tok_from(s, i + 1, toks, t1, o));
            lemma_tok_word(s, a, t, j + 1, toks);
        }
    }
}

/// `join` seen from the front: the first part, the separator, then the rest joined.
proof fn lemma_join_front(ts: Seq<Seq<char>>, sep: Seq<char>)
    requires
        ts.len() >= 2,
    ensures
        join(ts, sep) == ts[0] + sep + join(ts.drop_first(), sep),
    decreases ts.len(),
{
    if ts.len() == 2 {
        assert(ts.drop_last().len() == 1);
        assert(ts.drop_first().len() == 1);
        assert(join(ts.drop_last(), sep) == ts[0]);
        assert(join(ts.drop_first(), sep) == ts[1]);
    } else {
        lemma_join_front(ts.drop_last(), sep);
        assert(ts.drop_last().drop_first() =~= ts.drop_first().drop_last());
        assert(ts.drop_first().last() == ts.last());
        assert(ts.drop_last()[0] == ts[0]);
    }
}

/// The words of some text: non-empty, never split inside a span, and all but the last closing
/// every span they open.
pub open spec fn well_split(ts: Seq<Seq<char>>) -> bool {
    &&& forall|k: int| 0 <= k < ts.len() ==> (#[trigger] ts[k]).len() > 0
    &&& forall|k: int| 0 <= k < ts.len() ==> (#[trigger] scan(ts[k])).ok
    &&& forall|k: int| 0 <= k < ts.len() - 1 ==> scan_open(#[trigger] scan(ts[k])) is None
}

proof fn lemma_tok_join(p: Seq<char>, ts: Seq<Seq<char>>, acc: Seq<Seq<char>>)
    requires
        well_split(ts),
    ensures
        tok_from(p + join(ts, seq![' ']), p.len() as int, acc, Seq::empty(), None) == acc + ts,
    decreases ts.len(),
{
    let sp = seq![' '];
    let s = p + join(ts, sp);
    let pl = p.len() as int;
    if ts.len() == 0 {
        assert(s =~= p);
        assert(acc + ts =~= acc);
    } else {
        let t0 = ts[0];
        assert(t0.len() > 0);
        assert(scan(t0).ok);
        assert(t0.take(0) =~= Seq::<char>::empty());
        assert(scan(Seq::<char>::empty()) == SpanScan { open: None, run: 0, ok: true });
        if ts.len() == 1 {
            assert(s =~= p + t0);
            assert(s.subrange(pl, pl + t0.len()) =~= t0);
            lemma_tok_word(s, pl, t0, 0, acc);
            assert(acc.push(t0) =~= acc + ts);
        } else {
            lemma_join_front(ts, sp);
            let rest = ts.drop_first();
            let p2 = p + t0 + sp;
            assert(s =~= p2 + join(rest, sp));
            assert(s.subrange(pl, pl + t0.len()) =~= t0);
            assert(s[pl + t0.len()] == ' ');
            assert(scan_open(scan(ts[0])) is None);
            lemma_tok_word(s, pl, t0, 0, acc);
            assert(tok_from(s, pl + t0.len(), acc, t0, None) == tok_from(
                s,
                pl + t0.len() + 1,
                acc.push(t0),
                Seq::empty(),
                None,
            ));
            assert(well_split(rest)) by {
                assert forall|k: int| 0 <= k < rest.len() implies (#[trigger] rest[k]).len() > 0
                    && scan(rest[k]).ok by {
                    assert(rest[k] == ts[k + 1]);
                }
                assert forall|k: int| 0 <= k < rest.len() - 1 implies scan_open(
                    #[trigger] scan(rest[k]),
                ) is None by {
                    assert(rest[k] == ts[k + 1]);
                }
            }
            lemma_tok_join(p2, rest, acc.push(t0));
            assert(acc.push(t0) + rest =~= acc + ts);
        }
    }
}

/// Tokenizing the words joined back with single spaces gives the same words.
pub proof fn rejoined_words_tokenize_back(s: Seq<char>)
    ensures
        tokenize(join(tokenize(s), seq![' '])) == tokenize(s),
{
    tokens_are_nonempty(s);
    spans_are_never_split(s);
    let ts = tokenize(s);
    lemma_tok_join(Seq::empty(), ts, Seq::empty());
    assert(Seq::<char>::empty() + join(ts, seq![' ']) =~= join(ts, seq![' ']));
    assert(Seq::<Seq<char>>::empty() + ts =~= ts);
}

/// Spaces followed by a piece of a word that opens no unclosed-span whitespace give at most that
/// one piece as a word.
pub(crate) proof fn lemma_spaces_then_word(n: nat, x: Seq<char>)
    requires
        scan(x).ok,
    ensures
        tokenize(spaces(n) + x) == flush(Seq::empty(), x),
{
    let s = spaces(n) + x;
    lemma_tok_spaces(s, 0, n as int);
    assert(s.subrange(n as int, (n + x.len()) as int) =~= x);
    assert(x.take(0) =~= Seq::<char>::empty());
    assert(scan(Seq::<char>::empty()) == SpanScan { open: None, run: 0, ok: true });
    lemma_tok_word(s, n as int, x, 0, Seq::empty());
}

proof fn lemma_tok_spaces(s: Seq<char>, i: int, n: int)
    requires
        0 <= i <= n <= s.len(),
        forall|k: int| 0 <= k < n ==> #[trigger] s[k] == ' ',
    ensures
        tok_from(s, i, Seq::empty(), Seq::empty(), None) == tok_from(
            s,
            n,
            Seq::empty(),
            Seq::empty(),
            None,
        ),
    decreases n - i,
{
    if i < n {
        assert(s[i] == ' ');
        assert(flush(Seq::<Seq<char>>::empty(), Seq::<char>::empty()) == Seq::<Seq<char>>::empty());
        lemma_tok_spaces(s, i + 1, n);
    }
}

/// A character of plain text: not a backtick, and ASCII whitespace if whitespace at all.
pub open spec fn plain_char(c: char) -> bool {
    c != '`' && (is_ws(c) ==> is_ascii_ws(c))
}

pub open spec fn plain() -> spec_fn(char) -> bool {
    |c: char| plain_char(c)
}

/// Tokenizing looks only at the text from its position on.
proof fn lemma_tok_shift(
    s: Seq<char>,
    d: int,
    i: int,
    acc: Seq<Seq<char>>,
    cur: Seq<char>,
    o: Option<nat>,
)
    requires
        0 <= d <= i,
        d <= s.len(),
    ensures
        tok_from(s, i, acc, cur, o) == tok_from(s.skip(d), i - d, acc, cur, o),
    decreases s.len() - i,
{
    let t = s.skip(d);
    if i < s.len() {
        assert(t[i - d] == s[i]);
        if s[i] == '`' {
            let n = tick_run(s, i);
            lemma_run_len_bound(s.skip(i), '`');
            assert(s.skip(i)[0] == s[i]);
            assert(t.skip(i - d) =~= s.skip(i));
            assert(t.subrange(i - d, i - d + n) =~= s.subrange(i, i + n));
            lemma_tok_shift(s, d, i + n, acc, cur + s.subrange(i, i + n), after_run(o, n));
            assert(tok_from(s, i, acc, cur, o) == tok_from(s, i + n, acc, cur + s.subrange(i, i + n), after_run(o, n)));
            assert(tok_from(t, i - d, acc, cur, o) == tok_from(t, i - d + n, acc, cur + t.subrange(i - d, i - d + n), after_run(o, n)));
        } else if o is None && is_ascii_ws(s[i]) {
            lemma_tok_shift(s, d, i + 1, flush(acc, cur), Seq::empty(), None);
            assert(tok_from(t, i - d, acc, cur, o) == tok_from(t, i - d + 1, flush(acc, cur), Seq::empty(), None));
        } else {
            lemma_tok_shift(s, d, i + 1, acc, cur.push(s[i]), o);
            assert(tok_from(t, i - d, acc, cur, o) == tok_from(t, i - d + 1, acc, cur.push(s[i]), o));
        }
    } else {
        assert(i - d >= t.len());
    }
}

/// The words found before a position are only prepended to what follows.
proof fn lemma_tok_acc(s: Seq<char>, i: int, acc: Seq<Seq<char>>, cur: Seq<char>, o: Option<nat>)
    ensures
        tok_from(s, i, acc, cur, o) == acc + tok_from(s, i, Seq::empty(), cur, o),
    decreases s.len() - i,
{
    let e = Seq::<Seq<char>>::empty();
    if i < 0 || i >= s.len() {
        if cur.len() > 0 {
            assert(acc.push(cur) =~= acc + e.push(cur));
        } else {
            assert(acc =~= acc + e);
        }
    } else if s[i] == '`' {
        let n = tick_run(s, i);
        lemma_run_len_bound(s.skip(i), '`');
        assert(s.skip(i)[0] == s[i]);
        lemma_tok_acc(s, i + n, acc, cur + s.subrange(i, i + n), after_run(o, n));
        assert(tok_from(s, i, acc, cur, o) == tok_from(s, i + n, acc, cur + s.subrange(i, i + n), after_run(o, n)));
        assert(tok_from(s, i, e, cur, o) == tok_from(s, i + n, e, cur + s.subrange(i, i + n), after_run(o, n)));
    } else if o is None && is_ascii_ws(s[i]) {
        lemma_tok_acc(s, i + 1, flush(acc, cur), Seq::empty(), None);
        lemma_tok_acc(s, i + 1, flush(e, cur), Seq::empty(), None);
        if cur.len() > 0 {
            assert(flush(acc, cur) =~= acc + flush(e, cur));
        } else {
            assert(flush(acc, cur) =~= acc + flush(e, cur));
        }
        assert(acc + (flush(e, cur) + tok_from(s, i + 1, e, Seq::empty(), None)) =~= flush(acc, cur)
            + tok_from(s, i + 1, e, Seq::empty(), None));
    } else {
        lemma_tok_acc(s, i + 1, acc, cur.push(s[i]), o);
    }
}

proof fn lemma_tok_before_ws(
    a: Seq<char>,
    r: Seq<char>,
    i: int,
    acc: Seq<Seq<char>>,
    cur: Seq<char>,
)
    requires
        forall|k: int| 0 <= k < a.len() ==> #[trigger] a[k] != '`',
        r.len() > 0,
        is_ascii_ws(r[0]),
        0 <= i <= a.len(),
    ensures
        tok_from(a + r, i, acc, cur, None) == tok_from(a, i, acc, cur, None) + tok_from(
            a + r,
            a.len() + 1int,
            Seq::empty(),
            Seq::empty(),
            None,
        ),
    decreases a.len() - i,
{
    let s = a + r;
    if i == a.len() {
        assert(s[i] == r[0]);
        lemma_tok_acc(s, i + 1, flush(acc, cur), Seq::empty(), None);
    } else {
        assert(s[i] == a[i]);
        if is_ascii_ws(a[i]) {
            lemma_tok_before_ws(a, r, i + 1, flush(acc, cur), Seq::empty());
        } else {
            lemma_tok_before_ws(a, r, i + 1, acc, cur.push(a[i]));
        }
    }
}

/// Text without backticks followed by ASCII whitespace: the words of the whole are the words of
/// the part before the whitespace character, then those of the part after it.
pub(crate) proof fn lemma_tok_split(a: Seq<char>, r: Seq<char>)
    requires
        forall|k: int| 0 <= k < a.len() ==> #[trigger] a[k] != '`',
        r.len() > 0,
        is_ascii_ws(r[0]),
    ensures
        tokenize(a + r) == tokenize(a) + tokenize(r.skip(1)),
{
    let n = a.len() + 1int;
    lemma_tok_before_ws(a, r, 0, Seq::empty(), Seq::empty());
    lemma_tok_shift(a + r, n, n, Seq::empty(), Seq::empty(), None);
    assert((a + r).skip(n) =~= r.skip(1));
}

/// Leading ASCII whitespace gives no word.
pub(crate) proof fn lemma_tok_ws_prefix(w: Seq<char>, x: Seq<char>)
    requires
        forall|k: int| 0 <= k < w.len() ==> is_ascii_ws(#[trigger] w[k]),
    ensures
        tokenize(w + x) == tokenize(x),
    decreases w.len(),
{
    if w.len() > 0 {
        let e = Seq::<char>::empty();
        assert(e + (w + x) =~= w + x);
        assert((w + x)[0] == w[0]);
        lemma_tok_split(e, w + x);
        assert(tokenize(e) == Seq::<Seq<char>>::empty());
        assert((w + x).skip(1) =~= w.skip(1) + x);
        assert(tokenize(e) + tokenize((w + x).skip(1)) =~= tokenize((w + x).skip(1)));
        assert forall|k: int| 0 <= k < w.skip(1).len() implies is_ascii_ws(#[trigger] w.skip(1)[k]) by {
            assert(w.skip(1)[k] == w[k + 1]);
        }
        lemma_tok_ws_prefix(w.skip(1), x);
    } else {
        assert(w + x =~= x);
    }
}

/// Trailing whitespace of plain text gives no word.
pub(crate) proof fn lemma_tok_trim_end(s: Seq<char>)
    requires
        all_chars(s, plain()),
    ensures
        tokenize(crate::text::trim_end(s)) == tokenize(s),
    decreases s.len(),
{
    if s.len() > 0 && is_ws(s.last()) {
        let a = s.drop_last();
        assert(plain()(s[s.len() - 1]));
        assert forall|k: int| 0 <= k < a.len() implies plain()(#[trigger] a[k]) by {
            assert(a[k] == s[k]);
        }
        assert forall|k: int| 0 <= k < a.len() implies #[trigger] a[k] != '`' by {
            assert(plain()(a[k]));
        }
        let r = seq![s.last()];
        assert(a + r =~= s);
        lemma_tok_split(a, r);
        assert(r.skip(1) =~= Seq::<char>::empty());
        assert(tokenize(Seq::<char>::empty()) == Seq::<Seq<char>>::empty());
        assert(tokenize(a) + Seq::<Seq<char>>::empty() =~= tokenize(a));
        lemma_tok_trim_end(a);
    }
}

proof fn lemma_scan_plain(w: Seq<char>)
    requires
        forall|k: int| 0 <= k < w.len() ==> #[trigger] w[k] != '`' && !is_ascii_ws(w[k]),
    ensures
        scan(w) == (SpanScan { open: None, run: 0, ok: true }),
    decreases w.len(),
{
    if w.len() > 0 {
        assert forall|k: int| 0 <= k < w.drop_last().len() implies #[trigger] w.drop_last()[k]
            != '`' && !is_ascii_ws(w.drop_last()[k]) by {
            assert(w.drop_last()[k] == w[k]);
        }
        lemma_scan_plain(w.drop_last());
        assert(w.last() == w[w.len() - 1]);
    }
}

/// Words holding neither backticks nor ASCII whitespace, joined with single spaces, tokenize back
/// to themselves.
pub(crate) proof fn lemma_tok_join_plain(ws: Seq<Seq<char>>)
    requires
        forall|k: int| 0 <= k < ws.len() ==> (#[trigger] ws[k]).len() > 0,
        forall|k: int, q: int|
            0 <= k < ws.len() && 0 <= q < ws[k].len() ==> #[trigger] ws[k][q] != '`'
                && !is_ascii_ws(ws[k][q]),
    ensures
        tokenize(join(ws, seq![' '])) == ws,
{
    assert forall|k: int| 0 <= k < ws.len() implies (#[trigger] scan(ws[k])).ok && scan_open(
        scan(ws[k]),
    ) is None by {
        assert forall|q: int| 0 <= q < ws[k].len() implies #[trigger] ws[k][q] != '`'
            && !is_ascii_ws(ws[k][q]) by {
            assert(ws[k][q] != '`');
        }
        lemma_scan_plain(ws[k]);
    }
    assert(well_split(ws));
    lemma_tok_join(Seq::empty(), ws, Seq::empty());
    assert(Seq::<char>::empty() + join(ws, seq![' ']) =~= join(ws, seq![' ']));
    assert(Seq::<Seq<char>>::empty() + ws =~= ws);
}

} // verus!
