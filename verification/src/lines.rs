//! Splitting text into lines the way `str::lines` does, and joining lines back.
use vstd::prelude::*;
use crate::text::{all_chars, join, seqs_of};

verus! {

/// Lines completed so far and the line being read.
pub struct LineSplit {
    pub done: Seq<Seq<char>>,
    pub cur: Seq<char>,
}

pub open spec fn newline() -> Seq<char> {
    seq!['\n']
}

/// A line without the carriage return that precedes its line feed.
pub open spec fn strip_cr(l: Seq<char>) -> Seq<char> {
    if l.len() > 0 && l.last() == '\r' {
        l.drop_last()
    } else {
        l
    }
}

pub open spec fn split_fold(s: Seq<char>) -> LineSplit
    decreases s.len(),
{
    if s.len() == 0 {
        LineSplit { done: Seq::empty(), cur: Seq::empty() }
    } else {
        let p = split_fold(s.drop_last());
        if s.last() == '\n' {
            LineSplit { done: p.done.push(strip_cr(p.cur)), cur: Seq::empty() }
        } else {
            LineSplit { done: p.done, cur: p.cur.push(s.last()) }
        }
    }
}

/// `str::lines`: the text split at `\n` (with a `\r` just before it removed); a final line ending
/// does not start an empty line.
pub open spec fn lines_of(s: Seq<char>) -> Seq<Seq<char>> {
    let p = split_fold(s);
    if p.cur.len() > 0 {
        p.done.push(p.cur)
    } else {
        p.done
    }
}

/// Whether the text ends with a line feed.
pub open spec fn ends_with_newline(s: Seq<char>) -> bool {
    s.len() > 0 && s.last() == '\n'
}

/// Lines joined with line feeds, with a final line feed when the original text had one.
pub open spec fn assemble(lines: Seq<Seq<char>>, trailing_newline: bool) -> Seq<char> {
    join(lines, newline()) + if trailing_newline {
        newline()
    } else {
        Seq::empty()
    }
}

/// Splits text held as characters into lines.
pub fn split_lines(s: &[char]) -> (r: Vec<Vec<char>>)
    ensures
        seqs_of(r@) == lines_of(s@),
{
    let mut done: Vec<Vec<char>> = Vec::new();
    let mut cur: Vec<char> = Vec::new();
    let mut i: usize = 0;
    assert(s@.take(0) =~= Seq::<char>::empty());
    assert(seqs_of(done@) =~= Seq::<Seq<char>>::empty());
    assert(cur@ =~= Seq::<char>::empty());
    while i < s.len()
        invariant
            i <= s.len(),
            seqs_of(done@) == split_fold(s@.take(i as int)).done,
            cur@ == split_fold(s@.take(i as int)).cur,
        decreases s.len() - i,
    {
        assert(s@.take(i + 1).drop_last() =~= s@.take(i as int));
        assert(s@.take(i + 1).last() == s@[i as int]);
        if s[i] == '\n' {
            let ghost old_done = seqs_of(done@);
            let ghost old_cur = cur@;
            let n = cur.len();
            if n > 0 && cur[n - 1] == '\r' {
                cur.pop();
            }
            assert(cur@ == strip_cr(old_cur));
            let line = cur;
            let ghost lv = line@;
            done.push(line);
            assert(seqs_of(done@) =~= old_done.push(lv));
            cur = Vec::new();
            assert(cur@ =~= Seq::<char>::empty());
        } else {
            cur.push(s[i]);
        }
        i = i + 1;
    }
    assert(s@.take(s.len() as int) =~= s@);
    let ghost old_done = seqs_of(done@);
    let ghost last = cur@;
    if cur.len() > 0 {
        done.push(cur);
        assert(seqs_of(done@) =~= old_done.push(last));
    }
    done
}

/// Lines joined with line feeds, plus a final line feed when asked for.
pub fn assemble_lines(lines: &Vec<Vec<char>>, trailing_newline: bool) -> (r: Vec<char>)
    ensures
        r@ == assemble(seqs_of(lines@), trailing_newline),
{
    let ghost ls = seqs_of(lines@);
    let mut r: Vec<char> = Vec::new();
    let mut k: usize = 0;
    assert(ls.take(0) =~= Seq::<Seq<char>>::empty());
    assert(r@ =~= join(ls.take(0), newline()));
    while k < lines.len()
        invariant
            k <= lines.len(),
            ls == seqs_of(lines@),
            r@ == join(ls.take(k as int), newline()),
        decreases lines.len() - k,
    {
        let ghost before = r@;
        assert(ls.take(k + 1).drop_last() =~= ls.take(k as int));
        assert(ls.take(k + 1).last() == lines@[k as int]@);
        if k > 0 {
            r.push('\n');
        }
        crate::text::append_chars(&mut r, &lines[k]);
        proof {
            if k == 0 {
                assert(ls.take(1)[0] == lines@[0]@);
                assert(r@ =~= join(ls.take(1), newline()));
            } else {
                assert(r@ =~= before + newline() + lines@[k as int]@);
            }
        }
        k = k + 1;
    }
    assert(ls.take(lines.len() as int) =~= ls);
    if trailing_newline {
        r.push('\n');
        assert(r@ =~= join(ls, newline()) + newline());
    } else {
        assert(r@ =~= join(ls, newline()) + Seq::<char>::empty());
    }
    r
}

proof fn lemma_join_push_last(g: Seq<Seq<char>>, x: Seq<char>, c: char, sep: Seq<char>)
    ensures
        join(g.push(x.push(c)), sep) == join(g.push(x), sep).push(c),
{
    crate::wrap::lemma_join_push(g, x.push(c), sep);
    crate::wrap::lemma_join_push(g, x, sep);
    if g.len() > 0 {
        assert(join(g, sep) + sep + x.push(c) =~= (join(g, sep) + sep + x).push(c));
    }
}

proof fn lemma_split_fold_join(s: Seq<char>)
    requires
        forall|k: int| 0 <= k < s.len() ==> #[trigger] s[k] != '\r',
    ensures
        ({
            let p = split_fold(s);
            &&& join(p.done.push(p.cur), newline()) == s
            &&& forall|k: int| 0 <= k < p.cur.len() ==> #[trigger] p.cur[k] != '\r'
            &&& p.cur.len() == 0 && s.len() > 0 ==> s.last() == '\n' && p.done.len() > 0
            &&& p.cur.len() > 0 ==> s.last() != '\n'
        }),
    decreases s.len(),
{
    let p = split_fold(s);
    if s.len() == 0 {
        assert(p.done.push(p.cur).len() == 1);
        assert(join(p.done.push(p.cur), newline()) == p.cur);
        assert(p.cur =~= s);
    } else {
        let d = s.drop_last();
        assert forall|k: int| 0 <= k < d.len() implies #[trigger] d[k] != '\r' by {
            assert(d[k] == s[k]);
        }
        lemma_split_fold_join(d);
        let q = split_fold(d);
        assert(s =~= d.push(s.last()));
        assert(s.last() == s[s.len() - 1]);
        if s.last() == '\n' {
            if q.cur.len() > 0 {
                assert(q.cur.last() == q.cur[q.cur.len() - 1]);
            }
            assert(strip_cr(q.cur) == q.cur);
            crate::wrap::lemma_join_push(q.done.push(q.cur), Seq::<char>::empty(), newline());
            assert(join(p.done.push(p.cur), newline()) =~= join(q.done.push(q.cur), newline())
                + newline());
        } else {
            lemma_join_push_last(q.done, q.cur, s.last(), newline());
            assert forall|k: int| 0 <= k < p.cur.len() implies #[trigger] p.cur[k] != '\r' by {
                if k < q.cur.len() {
                    assert(p.cur[k] == q.cur[k]);
                }
            }
        }
    }
}

/// Splitting a text without carriage returns into lines and joining them back (with the final line
/// feed the text had) gives back the text.
pub proof fn lines_roundtrip(s: Seq<char>)
    requires
        forall|k: int| 0 <= k < s.len() ==> #[trigger] s[k] != '\r',
    ensures
        assemble(lines_of(s), ends_with_newline(s)) == s,
{
    lemma_split_fold_join(s);
    let p = split_fold(s);
    if p.cur.len() > 0 {
        assert(assemble(lines_of(s), ends_with_newline(s)) =~= join(p.done.push(p.cur), newline()));
    } else if s.len() == 0 {
        assert(lines_of(s) =~= Seq::<Seq<char>>::empty());
        assert(assemble(lines_of(s), ends_with_newline(s)) =~= s);
    } else {
        crate::wrap::lemma_join_push(p.done, p.cur, newline());
        assert(join(p.done.push(p.cur), newline()) =~= join(p.done, newline()) + newline());
        assert(assemble(lines_of(s), ends_with_newline(s)) =~= join(p.done, newline()) + newline());
    }
}

/// Characters other than the line feed.
pub open spec fn not_lf() -> spec_fn(char) -> bool {
    |c: char| c != '\n'
}

/// A line holds no line feed.
pub open spec fn no_break(l: Seq<char>) -> bool {
    all_chars(l, not_lf())
}

/// A line does not end with a carriage return (which splitting would take for part of a line
/// ending).
pub open spec fn no_cr_end(l: Seq<char>) -> bool {
    l.len() == 0 || l.last() != '\r'
}

/// The text holds no carriage return, carriage return, line feed sequence: the only way a line
/// (once its line ending is taken off) can end with a carriage return.
pub open spec fn no_cr_cr_lf(s: Seq<char>) -> bool {
    forall|k: int|
        0 <= k && k + 2 < s.len() ==> !(#[trigger] s[k] == '\r' && s[k + 1] == '\r' && s[k + 2]
            == '\n')
}

proof fn lemma_split_fold_lines(s: Seq<char>)
    requires
        no_cr_cr_lf(s),
    ensures
        forall|k: int|
            0 <= k < split_fold(s).done.len() ==> no_break(#[trigger] split_fold(s).done[k])
                && no_cr_end(split_fold(s).done[k]),
        no_break(split_fold(s).cur),
        split_fold(s).cur.len() <= s.len(),
        split_fold(s).cur == s.skip(s.len() - split_fold(s).cur.len()),
        s.len() > 0 && s.last() == '\n' ==> split_fold(s).done.len() > 0 && split_fold(s).cur.len()
            == 0,
        s.len() > 0 && s.last() != '\n' ==> split_fold(s).cur.len() > 0,
    decreases s.len(),
{
    if s.len() == 0 {
        assert(s.skip(0) =~= Seq::<char>::empty());
    } else {
        let d = s.drop_last();
        assert forall|k: int| 0 <= k && k + 2 < d.len() implies !(#[trigger] d[k] == '\r' && d[k
            + 1] == '\r' && d[k + 2] == '\n') by {
            assert(d[k] == s[k]);
            assert(d[k + 1] == s[k + 1]);
            assert(d[k + 2] == s[k + 2]);
        }
        lemma_split_fold_lines(d);
        let q = split_fold(d);
        assert(s.last() == s[s.len() - 1]);
        if s.last() == '\n' {
            let l = strip_cr(q.cur);
            if q.cur.len() > 0 && q.cur.last() == '\r' {
                assert(l == q.cur.drop_last());
                if l.len() > 0 && l.last() == '\r' {
                    let n = d.len() as int;
                    assert(q.cur[q.cur.len() - 1] == d[n - 1]);
                    assert(q.cur[q.cur.len() - 2] == d[n - 2]);
                    assert(s[n - 2] == '\r' && s[n - 1] == '\r' && s[n] == '\n');
                    assert(s[(n - 2) + 1] == s[n - 1]);
                    assert(!(s[n - 2] == '\r' && s[(n - 2) + 1] == '\r' && s[(n - 2) + 2] == '\n'));
                }
                assert forall|k: int| 0 <= k < l.len() implies not_lf()(#[trigger] l[k]) by {
                    assert(l[k] == q.cur[k]);
                }
            } else {
                assert(l == q.cur);
                if q.cur.len() > 0 {
                    assert(q.cur.last() == q.cur[q.cur.len() - 1]);
                }
            }
            let done = q.done.push(l);
            assert forall|k: int| 0 <= k < done.len() implies no_break(#[trigger] done[k])
                && no_cr_end(done[k]) by {
                if k < q.done.len() {
                    assert(done[k] == q.done[k]);
                }
            }
            assert(s.skip(s.len() as int) =~= Seq::<char>::empty());
        } else {
            let cur = q.cur.push(s.last());
            assert forall|k: int| 0 <= k < cur.len() implies not_lf()(#[trigger] cur[k]) by {
                if k < q.cur.len() {
                    assert(cur[k] == q.cur[k]);
                }
            }
            assert(cur =~= s.skip(s.len() - cur.len()));
        }
    }
}

/// The lines of a text with no carriage return, carriage return, line feed sequence hold no line
/// feed, and none but a last line left without a line ending ends with a carriage return; there
/// is at least one line when the text ends with a line feed, and otherwise the last one is not
/// empty.
pub proof fn lines_have_no_breaks(s: Seq<char>)
    requires
        no_cr_cr_lf(s),
    ensures
        forall|k: int| 0 <= k < lines_of(s).len() ==> no_break(#[trigger] lines_of(s)[k]),
        forall|k: int| 0 <= k < lines_of(s).len() - 1 ==> no_cr_end(#[trigger] lines_of(s)[k]),
        ends_with_newline(s) ==> lines_of(s).len() > 0 && no_cr_end(lines_of(s).last()),
        !ends_with_newline(s) && lines_of(s).len() > 0 ==> lines_of(s).last().len() > 0,
{
    lemma_split_fold_lines(s);
    let p = split_fold(s);
    if p.cur.len() > 0 {
        assert forall|k: int| 0 <= k < lines_of(s).len() implies no_break(#[trigger] lines_of(s)[k]) by {
            if k < p.done.len() {
                assert(lines_of(s)[k] == p.done[k]);
            }
        }
        assert forall|k: int| 0 <= k < lines_of(s).len() - 1 implies no_cr_end(
            #[trigger] lines_of(s)[k],
        ) by {
            assert(lines_of(s)[k] == p.done[k]);
        }
    }
    if s.len() == 0 {
        assert(lines_of(s).len() == 0);
    }
    if ends_with_newline(s) {
        assert(lines_of(s).last() == p.done[p.done.len() - 1]);
    }
}

proof fn lemma_split_fold_append(s: Seq<char>, l: Seq<char>)
    requires
        no_break(l),
    ensures
        split_fold(s + l) == (LineSplit { done: split_fold(s).done, cur: split_fold(s).cur + l }),
    decreases l.len(),
{
    if l.len() == 0 {
        assert(s + l =~= s);
        assert(split_fold(s).cur + l =~= split_fold(s).cur);
    } else {
        assert((s + l).drop_last() =~= s + l.drop_last());
        assert((s + l).last() == l[l.len() - 1]);
        assert(not_lf()(l[l.len() - 1]));
        assert forall|k: int| 0 <= k < l.drop_last().len() implies not_lf()(
            #[trigger] l.drop_last()[k],
        ) by {
            assert(l.drop_last()[k] == l[k]);
        }
        lemma_split_fold_append(s, l.drop_last());
        assert((split_fold(s).cur + l.drop_last()).push(l.last()) =~= split_fold(s).cur + l);
    }
}

proof fn lemma_split_fold_join_lines(ls: Seq<Seq<char>>)
    requires
        ls.len() > 0,
        forall|k: int| 0 <= k < ls.len() ==> no_break(#[trigger] ls[k]),
        forall|k: int| 0 <= k < ls.len() - 1 ==> no_cr_end(#[trigger] ls[k]),
    ensures
        split_fold(join(ls, newline())) == (LineSplit { done: ls.drop_last(), cur: ls.last() }),
    decreases ls.len(),
{
    if ls.len() == 1 {
        assert(ls[0] == ls.last());
        assert(no_break(ls[0]));
        lemma_split_fold_append(Seq::empty(), ls[0]);
        assert(Seq::<char>::empty() + ls[0] =~= ls[0]);
        assert(split_fold(Seq::<char>::empty()).cur + ls[0] =~= ls[0]);
        assert(ls.drop_last() =~= Seq::<Seq<char>>::empty());
    } else {
        let d = ls.drop_last();
        assert forall|k: int| 0 <= k < d.len() implies no_break(#[trigger] d[k]) by {
            assert(d[k] == ls[k]);
        }
        assert forall|k: int| 0 <= k < d.len() - 1 implies no_cr_end(#[trigger] d[k]) by {
            assert(d[k] == ls[k]);
        }
        lemma_split_fold_join_lines(d);
        let x = join(d, newline());
        let xn = x + newline();
        assert(xn.drop_last() =~= x);
        assert(xn.last() == '\n');
        assert(d.last() == ls[ls.len() - 2]);
        assert(no_cr_end(d.last()));
        assert(strip_cr(d.last()) == d.last());
        assert(d.drop_last().push(d.last()) =~= d);
        assert(split_fold(xn) == LineSplit { done: d, cur: Seq::<char>::empty() });
        assert(ls.last() == ls[ls.len() - 1]);
        assert(no_break(ls.last()));
        lemma_split_fold_append(xn, ls.last());
        assert(Seq::<char>::empty() + ls.last() =~= ls.last());
        assert(join(ls, newline()) == xn + ls.last());
    }
}

/// Lines without line feeds, none but possibly the last ending with a carriage return, joined
/// back (with a final line feed, the last line then not ending with a carriage return either, or
/// else ending in a line that is not empty), split into the same lines, and the text ends with a
/// line feed exactly when one was added.
pub proof fn assembled_lines_split_back(ls: Seq<Seq<char>>, trailing_newline: bool)
    requires
        forall|k: int| 0 <= k < ls.len() ==> no_break(#[trigger] ls[k]),
        forall|k: int| 0 <= k < ls.len() - 1 ==> no_cr_end(#[trigger] ls[k]),
        trailing_newline ==> ls.len() > 0 && no_cr_end(ls.last()),
        !trailing_newline && ls.len() > 0 ==> ls.last().len() > 0,
    ensures
        lines_of(assemble(ls, trailing_newline)) == ls,
        ends_with_newline(assemble(ls, trailing_newline)) == trailing_newline,
{
    let a = assemble(ls, trailing_newline);
    if ls.len() == 0 {
        assert(join(ls, newline()) =~= Seq::<char>::empty());
        assert(a =~= Seq::<char>::empty());
        assert(lines_of(a) =~= ls);
    } else {
        lemma_split_fold_join_lines(ls);
        let x = join(ls, newline());
        assert(ls.drop_last().push(ls.last()) =~= ls);
        if trailing_newline {
            assert(a =~= x + newline());
            assert(a.drop_last() =~= x);
            assert(strip_cr(ls.last()) == ls.last());
        } else {
            assert(a =~= x);
            if ls.len() == 1 {
                assert(x == ls[0]);
            } else {
                assert(x == join(ls.drop_last(), newline()) + newline() + ls.last());
                assert(x.last() == ls.last().last());
            }
            assert(ls.last() == ls[ls.len() - 1]);
            assert(ls.last().last() == ls.last()[ls.last().len() - 1]);
            assert(not_lf()(ls.last()[ls.last().len() - 1]));
        }
    }
}

proof fn lemma_split_fold_chars(s: Seq<char>, p: spec_fn(char) -> bool)
    requires
        all_chars(s, p),
    ensures
        forall|k: int|
            0 <= k < split_fold(s).done.len() ==> all_chars(#[trigger] split_fold(s).done[k], p),
        all_chars(split_fold(s).cur, p),
    decreases s.len(),
{
    if s.len() > 0 {
        let d = s.drop_last();
        assert forall|k: int| 0 <= k < d.len() implies p(#[trigger] d[k]) by {
            assert(d[k] == s[k]);
        }
        lemma_split_fold_chars(d, p);
        let q = split_fold(d);
        assert(s.last() == s[s.len() - 1]);
        if s.last() == '\n' {
            let l = strip_cr(q.cur);
            assert forall|k: int| 0 <= k < l.len() implies p(#[trigger] l[k]) by {
                assert(l[k] == q.cur[k]);
            }
            let done = q.done.push(l);
            assert forall|k: int| 0 <= k < done.len() implies all_chars(#[trigger] done[k], p) by {
                if k < q.done.len() {
                    assert(done[k] == q.done[k]);
                }
            }
        } else {
            let cur = q.cur.push(s.last());
            assert forall|k: int| 0 <= k < cur.len() implies p(#[trigger] cur[k]) by {
                if k < q.cur.len() {
                    assert(cur[k] == q.cur[k]);
                }
            }
        }
    }
}

/// Every line of a text holds only characters of the text.
pub proof fn lines_keep_chars(s: Seq<char>, p: spec_fn(char) -> bool)
    requires
        all_chars(s, p),
    ensures
        forall|k: int| 0 <= k < lines_of(s).len() ==> all_chars(#[trigger] lines_of(s)[k], p),
{
    lemma_split_fold_chars(s, p);
    let q = split_fold(s);
    if q.cur.len() > 0 {
        assert forall|k: int| 0 <= k < lines_of(s).len() implies all_chars(#[trigger] lines_of(s)[k], p) by {
            if k < q.done.len() {
                assert(lines_of(s)[k] == q.done[k]);
            }
        }
    }
}

} // verus!
