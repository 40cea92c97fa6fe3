//! What the tool prints: the unified-style listing of changes, and the whole outcome of
//! reformatting standard input.
use vstd::prelude::*;
use crate::lines::lines_of;
use crate::process::{Change, ChangeSpec, changes_view, process_content, process_lines, processed_text};
use crate::text::{append_chars, chars_of, string_of, strings_view};
use crate::wrap::lemma_flatten_push_any;

verus! {

pub open spec fn digits() -> Seq<char> {
    seq!['0', '1', '2', '3', '4', '5', '6', '7', '8', '9']
}

/// The decimal numeral of `n`.
pub open spec fn decimal(n: nat) -> Seq<char>
    decreases n,
{
    if n < 10 {
        seq![digits()[n as int]]
    } else {
        decimal(n / 10).push(digits()[(n % 10) as int])
    }
}

/// Appends the decimal numeral of `n`.
pub fn push_decimal(out: &mut Vec<char>, n: usize)
    ensures
        final(out)@ == old(out)@ + decimal(n as nat),
    decreases n,
{
    let ds = vec!['0', '1', '2', '3', '4', '5', '6', '7', '8', '9'];
    assert(ds@ =~= digits());
    if n >= 10 {
        push_decimal(out, n / 10);
    }
    out.push(ds[n % 10]);
    assert(out@ =~= old(out)@ + decimal(n as nat));
}

pub open spec fn line_label(n: int) -> Seq<char> {
    seq![' ', ' ', 'L', 'i', 'n', 'e', ' '] + decimal(n as nat) + seq![':']
}

pub open spec fn removed_line(r: Seq<char>) -> Seq<char> {
    seq![' ', ' ', ' ', ' ', '-', ' '] + r
}

pub open spec fn added_line(a: Seq<char>) -> Seq<char> {
    seq![' ', ' ', ' ', ' ', '+', ' '] + a
}

/// The listing of one change: `  Line N:`, then each old line as `    - old` and each new line as
/// `    + new`.
pub open spec fn change_report(ch: ChangeSpec) -> Seq<Seq<char>> {
    seq![line_label(ch.0)] + ch.1.map_values(|r: Seq<char>| removed_line(r)) + ch.2.map_values(
        |a: Seq<char>| added_line(a),
    )
}

/// The listing of all changes, after an optional header line.
pub open spec fn report(header: Option<Seq<char>>, changes: Seq<ChangeSpec>) -> Seq<Seq<char>> {
    (match header {
        Some(h) => seq![h],
        None => Seq::empty(),
    }) + changes.map_values(|ch: ChangeSpec| change_report(ch)).flatten()
}

fn prefixed(pfx: &Vec<char>, s: &String) -> (r: String)
    ensures
        r@ == pfx@ + s@,
{
    let mut v = crate::text::concat_chars(pfx, &[]);
    assert(pfx@ + Seq::<char>::empty() =~= pfx@);
    let sv = chars_of(s.as_str());
    append_chars(&mut v, &sv);
    string_of(&v)
}

/// Appends `pfx + s` for each string `s`.
fn push_prefixed_all(out: &mut Vec<String>, pfx: &Vec<char>, items: &Vec<String>)
    ensures
        strings_view(final(out)@) == strings_view(old(out)@) + strings_view(items@).map_values(
            |r: Seq<char>| pfx@ + r,
        ),
{
    let ghost start = strings_view(out@);
    let mut k: usize = 0;
    while k < items.len()
        invariant
            k <= items.len(),
            strings_view(out@) == start + strings_view(items@).take(k as int).map_values(
                |r: Seq<char>| pfx@ + r,
            ),
        decreases items.len() - k,
    {
        let ghost before = strings_view(out@);
        let line = prefixed(pfx, &items[k]);
        out.push(line);
        assert(strings_view(out@) =~= before.push(line@));
        assert(strings_view(items@).take(k + 1).map_values(|r: Seq<char>| pfx@ + r) =~= strings_view(
            items@,
        ).take(k as int).map_values(|r: Seq<char>| pfx@ + r).push(pfx@ + items@[k as int]@));
        k = k + 1;
    }
    assert(strings_view(items@).take(items.len() as int) =~= strings_view(items@));
}

/// The lines that list a set of changes as a unified-style diff.
pub fn render_changes(changes: &Vec<Change>, header: Option<&str>) -> (r: Vec<String>)
    ensures
        strings_view(r@) == report(
            match header {
                Some(h) => Some(h@),
                None => None,
            },
            changes_view(changes@),
        ),
{
    let ghost cs = changes_view(changes@);
    let ghost f = |ch: ChangeSpec| change_report(ch);
    let mut out: Vec<String> = Vec::new();
    match header {
        Some(h) => {
            let hv = chars_of(h);
            out.push(string_of(&hv));
        },
        None => {},
    }
    let ghost head = strings_view(out@);
    let minus = vec![' ', ' ', ' ', ' ', '-', ' '];
    let plus = vec![' ', ' ', ' ', ' ', '+', ' '];
    let mut k: usize = 0;
    assert(cs.take(0).map_values(f).flatten() =~= Seq::<Seq<char>>::empty());
    assert(strings_view(out@) =~= head + cs.take(0).map_values(f).flatten());
    while k < changes.len()
        invariant
            k <= changes.len(),
            cs == changes_view(changes@),
            f == (|ch: ChangeSpec| change_report(ch)),
            minus@ == seq![' ', ' ', ' ', ' ', '-', ' '],
            plus@ == seq![' ', ' ', ' ', ' ', '+', ' '],
            strings_view(out@) == head + cs.take(k as int).map_values(f).flatten(),
        decreases changes.len() - k,
    {
        let ghost before = strings_view(out@);
        let ch = &changes[k];
        let mut label = vec![' ', ' ', 'L', 'i', 'n', 'e', ' '];
        push_decimal(&mut label, ch.0);
        label.push(':');
        assert(label@ =~= line_label(ch.0 as int));
        out.push(string_of(&label));
        let ghost mid = strings_view(out@);
        assert(mid =~= before.push(line_label(ch.0 as int)));
        push_prefixed_all(&mut out, &minus, &ch.1);
        push_prefixed_all(&mut out, &plus, &ch.2);
        proof {
            let c = cs[k as int];
            assert(c == (ch.0 as int, strings_view(ch.1@), strings_view(ch.2@)));
            assert(strings_view(out@) =~= before + change_report(c));
            assert(cs.take(k + 1).map_values(f) =~= cs.take(k as int).map_values(f).push(f(c)));
            lemma_flatten_push_any(cs.take(k as int).map_values(f), f(c));
        }
        k = k + 1;
    }
    assert(cs.take(changes.len() as int) =~= cs);
    let ghost hv = match header {
        Some(h) => Some(h@),
        None => None,
    };
    assert(strings_view(out@) =~= report(hv, cs));
    out
}

/// What reformatting standard input prints on standard output, and whether the tool then exits
/// with a failure.
pub struct StdinOutcome {
    pub stdout: String,
    pub failed: bool,
}

/// Lines each followed by a line feed, as `println!` prints them.
pub open spec fn printed(lines: Seq<Seq<char>>) -> Seq<char> {
    lines.map_values(|l: Seq<char>| l.push('\n')).flatten()
}

fn print_text(lines: &Vec<String>) -> (r: String)
    ensures
        r@ == printed(strings_view(lines@)),
{
    let ghost ls = strings_view(lines@);
    let ghost f = |l: Seq<char>| l.push('\n');
    let mut v: Vec<char> = Vec::new();
    let mut k: usize = 0;
    assert(ls.take(0).map_values(f).flatten() =~= Seq::<char>::empty());
    while k < lines.len()
        invariant
            k <= lines.len(),
            ls == strings_view(lines@),
            f == (|l: Seq<char>| l.push('\n')),
            v@ == ls.take(k as int).map_values(f).flatten(),
        decreases lines.len() - k,
    {
        let ghost before = v@;
        let lc = chars_of(lines[k].as_str());
        append_chars(&mut v, &lc);
        v.push('\n');
        proof {
            assert(ls.take(k + 1).map_values(f) =~= ls.take(k as int).map_values(f).push(
                f(ls[k as int]),
            ));
            lemma_flatten_push_any(ls.take(k as int).map_values(f), f(ls[k as int]));
            assert(v@ =~= before + f(ls[k as int]));
        }
        k = k + 1;
    }
    assert(ls.take(lines.len() as int) =~= ls);
    string_of(&v)
}

/// Reformats text read from standard input. Without `--check` the reformatted text is printed.
/// With `--check`, the changes are listed and the tool fails when there are any; nothing is
/// printed when there are none.
pub fn run_stdin(content: &str, max_width: usize, check: bool) -> (r: StdinOutcome)
    ensures
        ({
            let changes = process_lines(lines_of(content@), max_width as nat).changes;
            if !check {
                r.stdout@ == processed_text(content@, max_width as nat) && !r.failed
            } else if changes.len() > 0 {
                r.stdout@ == printed(report(None, changes)) && r.failed
            } else {
                r.stdout@ == Seq::<char>::empty() && !r.failed
            }
        }),
{
    let (new_content, changes) = process_content(content, max_width);
    if check {
        if changes.len() > 0 {
            let lines = render_changes(&changes, None);
            StdinOutcome { stdout: print_text(&lines), failed: true }
        } else {
            StdinOutcome { stdout: String::new(), failed: false }
        }
    } else {
        StdinOutcome { stdout: new_content, failed: false }
    }
}

/// Listing two runs of changes one after the other lists them in turn: every change is listed, in
/// order, and none is left out.
pub proof fn listing_of_concatenation(c1: Seq<ChangeSpec>, c2: Seq<ChangeSpec>)
    ensures
        report(None, c1 + c2) == report(None, c1) + report(None, c2),
{
    let f = |ch: ChangeSpec| change_report(ch);
    assert((c1 + c2).map_values(f) =~= c1.map_values(f) + c2.map_values(f));
    vstd::seq_lib::lemma_flatten_concat(c1.map_values(f), c2.map_values(f));
    assert(Seq::<Seq<char>>::empty() + (c1 + c2).map_values(f).flatten() =~= (c1
        + c2).map_values(f).flatten());
    assert(Seq::<Seq<char>>::empty() + c1.map_values(f).flatten() =~= c1.map_values(f).flatten());
    assert(Seq::<Seq<char>>::empty() + c2.map_values(f).flatten() =~= c2.map_values(f).flatten());
}

/// A header, when given, is the first line, followed by the listing without it; no changes and
/// no header list nothing.
pub proof fn listing_header(h: Seq<char>, cs: Seq<ChangeSpec>)
    ensures
        report(Some(h), cs) == seq![h] + report(None, cs),
        report(None, Seq::<ChangeSpec>::empty()) == Seq::<Seq<char>>::empty(),
{
    let f = |ch: ChangeSpec| change_report(ch);
    assert(Seq::<Seq<char>>::empty() + cs.map_values(f).flatten() =~= cs.map_values(f).flatten());
    assert(Seq::<ChangeSpec>::empty().map_values(f) =~= Seq::<Seq<Seq<char>>>::empty());
    assert(Seq::<Seq<Seq<char>>>::empty().flatten() =~= Seq::<Seq<char>>::empty());
    assert(Seq::<Seq<char>>::empty() + Seq::<Seq<char>>::empty() =~= Seq::<Seq<char>>::empty());
}

/// The listing of one change `(n, old, new)`: the label `  Line n:`, then each old line after
/// `    - `, then each new line after `    + `, and nothing else.
pub proof fn listing_of_one_change(n: int, old: Seq<Seq<char>>, new: Seq<Seq<char>>)
    ensures
        ({
            let r = report(None, seq![(n, old, new)]);
            &&& r.len() == 1 + old.len() + new.len()
            &&& r[0] == seq![' ', ' ', 'L', 'i', 'n', 'e', ' '] + decimal(n as nat) + seq![':']
            &&& forall|k: int|
                0 <= k < old.len() ==> r[1 + k] == seq![' ', ' ', ' ', ' ', '-', ' '] + #[trigger] old[k]
            &&& forall|k: int|
                0 <= k < new.len() ==> r[1 + old.len() + k] == seq![' ', ' ', ' ', ' ', '+', ' ']
                    + #[trigger] new[k]
        }),
{
    let f = |ch: ChangeSpec| change_report(ch);
    let ch = (n, old, new);
    assert(seq![ch].map_values(f) =~= seq![change_report(ch)]);
    seq![change_report(ch)].lemma_flatten_singleton();
    let r = report(None, seq![ch]);
    assert(r =~= change_report(ch));
    let a = old.map_values(|x: Seq<char>| removed_line(x));
    let b = new.map_values(|x: Seq<char>| added_line(x));
    assert forall|k: int| 0 <= k < old.len() implies r[1 + k] == seq![' ', ' ', ' ', ' ', '-', ' ']
        + #[trigger] old[k] by {
        assert(r[1 + k] == a[k]);
    }
    assert forall|k: int| 0 <= k < new.len() implies r[1 + old.len() + k] == seq![
        ' ',
        ' ',
        ' ',
        ' ',
        '+',
        ' ',
    ] + #[trigger] new[k] by {
        assert(r[1 + old.len() + k] == b[k]);
    }
}

} // verus!
