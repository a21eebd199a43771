//! The line grammar of the table-of-contents text:
//!
//! ```text
//! line  := '+'* digits ' ' title
//! ```
//!
//! Lines are separated by `'\n'`; a final `'\n'` ends the last line rather
//! than starting an empty one. The number of `'+'` is the depth, the digits
//! are the 1-based page, and the title runs to the end of the line.

use vstd::prelude::*;

use vstd::std_specs::iter::IteratorSpec;
use vstd::string::StringExecFns;

use crate::toc_format::{entries_view, EntryView, Toc, TocEntry};

verus! {

/// What is wrong with a line that does not match the grammar.
#[derive(Clone, Copy, Debug, PartialEq, Eq)]
pub enum LineFault {
    /// More `'+'` than a depth can count.
    DepthOverflow,
    /// No digit where the page should start.
    MissingPage,
    /// The page does not fit in `u32`.
    PageOverflow,
    /// The page is not followed by a space.
    MissingSpace,
}

/// A line of the text that does not match the grammar; `line` counts from 1.
#[derive(Clone, Copy, Debug, PartialEq, Eq)]
pub struct SyntaxError {
    pub line: usize,
    pub fault: LineFault,
}

pub open spec fn is_digit(c: char) -> bool {
    '0' <= c && c <= '9'
}

/// The first index at or after `i`, and at most `e`, that is not a `'+'`.
pub open spec fn plus_end(t: Seq<char>, i: int, e: int) -> int
    decreases e - i,
{
    if i >= e || t[i] != '+' {
        i
    } else {
        plus_end(t, i + 1, e)
    }
}

/// The first index at or after `i`, and at most `e`, that is not a digit.
pub open spec fn digit_end(t: Seq<char>, i: int, e: int) -> int
    decreases e - i,
{
    if i >= e || !is_digit(t[i]) {
        i
    } else {
        digit_end(t, i + 1, e)
    }
}

/// The number of chars from index `i` up to the first `'\n'` at or after
/// it, or up to the end of `t`.
pub open spec fn line_len(t: Seq<char>, i: int) -> nat
    decreases t.len() - i,
{
    if i < 0 || i >= t.len() || t[i] == '\n' {
        0
    } else {
        1 + line_len(t, i + 1)
    }
}

/// The number written in decimal by `t[a..b]`.
pub open spec fn digits_value(t: Seq<char>, a: int, b: int) -> nat
    decreases b - a,
{
    if b <= a {
        0
    } else {
        digits_value(t, a, b - 1) * 10 + (t[b - 1] as u32 - '0' as u32) as nat
    }
}

/// The entry that the line `t[s..e]` states, or what is wrong with it.
pub open spec fn parse_line(t: Seq<char>, s: int, e: int) -> Result<EntryView, LineFault> {
    let a = plus_end(t, s, e);
    let b = digit_end(t, a, e);
    if a - s > u32::MAX {
        Err(LineFault::DepthOverflow)
    } else if b == a {
        Err(LineFault::MissingPage)
    } else if digits_value(t, a, b) > u32::MAX {
        Err(LineFault::PageOverflow)
    } else if b >= e || t[b] != ' ' {
        Err(LineFault::MissingSpace)
    } else {
        Ok(EntryView { depth: (a - s) as nat, page: digits_value(t, a, b), title: t.subrange(b + 1, e) })
    }
}

/// The entries of the lines of `t` from index `pos` on, the first of them
/// being line number `line`; or the first line that does not match.
pub open spec fn parse_from(t: Seq<char>, pos: int, line: nat) -> Result<Seq<EntryView>, SyntaxError>
    decreases t.len() - pos,
{
    if pos < 0 || pos >= t.len() {
        Ok(Seq::empty())
    } else {
        let e = pos + line_len(t, pos);
        match parse_line(t, pos, e) {
            Err(fault) => Err(SyntaxError { line: #[verifier::truncate] (line as usize), fault }),
            Ok(x) => if e >= t.len() {
                Ok(seq![x])
            } else {
                match parse_from(t, e + 1, line + 1) {
                    Ok(rest) => Ok(seq![x] + rest),
                    Err(err) => Err(err),
                }
            },
        }
    }
}

/// The entries of a whole text, or its first line that does not match.
pub open spec fn parse_text(t: Seq<char>) -> Result<Seq<EntryView>, SyntaxError> {
    parse_from(t, 0, 1)
}

/// `p` put in front of the entries of a successful parse.
pub open spec fn prepend(p: Seq<EntryView>, r: Result<Seq<EntryView>, SyntaxError>) -> Result<
    Seq<EntryView>,
    SyntaxError,
> {
    match r {
        Ok(x) => Ok(p + x),
        Err(e) => Err(e),
    }
}

/// Relies on `String::push`: appends one char.
#[verifier::external_body]
fn push_char(s: &mut String, c: char)
    ensures
        final(s)@ == old(s)@.push(c),
{
    s.push(c)
}

/// The chars of a string, in order.
fn chars_of(text: &str) -> (r: Vec<char>)
    ensures
        r@ == text@,
{
    let mut out: Vec<char> = Vec::new();
    for c in it: text.chars()
        invariant
            out@ == it.seq().take(it.index() as int),
    {
        out.push(c);
        assert(out@ =~= it.seq().take(it.index() as int + 1));
    }
    assert(out@ =~= text@);
    out
}

/// Reads the line `cs[s..e]`.
fn read_line(cs: &Vec<char>, s: usize, e: usize) -> (r: Result<TocEntry, LineFault>)
    requires
        s <= e <= cs@.len(),
    ensures
        match r {
            Ok(x) => parse_line(cs@, s as int, e as int) == Ok::<EntryView, LineFault>(x@),
            Err(f) => parse_line(cs@, s as int, e as int) == Err::<EntryView, LineFault>(f),
        },
{
    let ghost t = cs@;
    let mut a = s;
    while a < e && cs[a] == '+'
        invariant
            t == cs@,
            s <= a <= e <= t.len(),
            plus_end(t, s as int, e as int) == plus_end(t, a as int, e as int),
        decreases e - a,
    {
        a += 1;
    }
    if a - s > u32::MAX as usize {
        return Err(LineFault::DepthOverflow);
    }
    let mut b = a;
    let mut value: u64 = 0;
    let mut over = false;
    while b < e && '0' <= cs[b] && cs[b] <= '9'
        invariant
            t == cs@,
            a == plus_end(t, s as int, e as int),
            a <= b <= e <= t.len(),
            digit_end(t, a as int, e as int) == digit_end(t, b as int, e as int),
            !over ==> value as nat == digits_value(t, a as int, b as int) && value <= u32::MAX,
            over ==> digits_value(t, a as int, b as int) > u32::MAX,
        decreases e - b,
    {
        let d = (cs[b] as u32 - '0' as u32) as u64;
        let ghost prev = digits_value(t, a as int, b as int);
        assert(digits_value(t, a as int, b as int + 1) == prev * 10 + d);
        if !over {
            let v = value * 10 + d;
            if v > u32::MAX as u64 {
                over = true;
            } else {
                value = v;
            }
        } else {
            assert(prev * 10 + d > u32::MAX) by (nonlinear_arith)
                requires
                    prev > u32::MAX,
                    d >= 0,
            ;
        }
        b += 1;
    }
    if b == a {
        return Err(LineFault::MissingPage);
    }
    if over {
        return Err(LineFault::PageOverflow);
    }
    if b >= e || cs[b] != ' ' {
        return Err(LineFault::MissingSpace);
    }
    let mut title = String::new();
    let mut k = b + 1;
    while k < e
        invariant
            t == cs@,
            b + 1 <= k <= e <= t.len(),
            title@ == t.subrange(b + 1, k as int),
        decreases e - k,
    {
        push_char(&mut title, cs[k]);
        k += 1;
        assert(title@ =~= t.subrange(b + 1, k as int));
    }
    Ok(TocEntry { depth: (a - s) as u32, page: value as u32, title })
}

/// Reads a table of contents from its text: one entry per line, in order.
/// An empty text gives no entries. Fails on the first line that does not
/// match the grammar, naming it and what is wrong with it.
pub fn parse_toc(text: &str) -> (r: Result<Toc, SyntaxError>)
    ensures
        match r {
            Ok(toc) => parse_text(text@) == Ok::<Seq<EntryView>, SyntaxError>(toc@),
            Err(e) => parse_text(text@) == Err::<Seq<EntryView>, SyntaxError>(e),
        },
{
    let cs = chars_of(text);
    let ghost t = cs@;
    let n = cs.len();
    let mut entries: Vec<TocEntry> = Vec::new();
    let mut pos: usize = 0;
    let mut done: usize = 0;
    proof {
        assert(entries_view(entries@) =~= Seq::<EntryView>::empty());
        assert(prepend(Seq::empty(), parse_from(t, 0, 1)) == parse_from(t, 0, 1)) by {
            match parse_from(t, 0, 1) {
                Ok(x) => assert(Seq::<EntryView>::empty() + x =~= x),
                Err(_) => {},
            }
        }
    }
    while pos < n
        invariant
            t == cs@,
            t == text@,
            n == t.len(),
            pos <= n,
            done <= pos,
            parse_text(t) == prepend(entries_view(entries@), parse_from(t, pos as int, done as nat + 1)),
        decreases n - pos,
    {
        let mut e = pos;
        while e < n && cs[e] != '\n'
            invariant
                t == cs@,
                n == t.len(),
                pos <= e <= n,
                pos + line_len(t, pos as int) == e + line_len(t, e as int),
            decreases n - e,
        {
            e += 1;
        }
        let ghost p = entries_view(entries@);
        let ghost rest = parse_from(t, e as int + 1, done as nat + 2);
        match read_line(&cs, pos, e) {
            Err(f) => {
                return Err(SyntaxError { line: done + 1, fault: f });
            },
            Ok(entry) => {
                entries.push(entry);
                proof {
                    assert(entries_view(entries@) =~= p.push(entries@.last()@));
                    if e < n {
                        match rest {
                            Ok(x) => assert(p + (seq![entries@.last()@] + x) =~= p.push(
                                entries@.last()@,
                            ) + x),
                            Err(_) => {},
                        }
                    } else {
                        assert(p + seq![entries@.last()@] =~= p.push(entries@.last()@) + Seq::<
                            EntryView,
                        >::empty());
                    }
                }
            },
        }
        if e >= n {
            pos = n;
        } else {
            pos = e + 1;
        }
        done += 1;
    }
    proof {
        assert(entries_view(entries@) + Seq::<EntryView>::empty() =~= entries_view(entries@));
    }
    Ok(Toc { entries })
}

/// The char of a decimal digit.
pub open spec fn digit_char(d: nat) -> char {
    seq!['0', '1', '2', '3', '4', '5', '6', '7', '8', '9'][d as int]
}

/// `n` written in decimal, without leading zeros.
pub open spec fn decimal(n: nat) -> Seq<char>
    decreases n,
{
    if n < 10 {
        seq![digit_char(n)]
    } else {
        decimal(n / 10).push(digit_char(n % 10))
    }
}

/// The line of an entry: `depth` times `'+'`, the page, a space, the title.
pub open spec fn line_text(e: EntryView) -> Seq<char> {
    Seq::new(e.depth, |i: int| '+') + decimal(e.page) + seq![' '] + e.title
}

/// The lines of the entries joined by `'\n'`, with none after the last.
pub open spec fn render(s: Seq<EntryView>) -> Seq<char>
    decreases s.len(),
{
    if s.len() == 0 {
        Seq::empty()
    } else if s.len() == 1 {
        line_text(s[0])
    } else {
        render(s.drop_last()) + seq!['\n'] + line_text(s.last())
    }
}

fn digit_of(d: u32) -> (c: char)
    requires
        d < 10,
    ensures
        c == digit_char(d as nat),
{
    if d == 0 {
        '0'
    } else if d == 1 {
        '1'
    } else if d == 2 {
        '2'
    } else if d == 3 {
        '3'
    } else if d == 4 {
        '4'
    } else if d == 5 {
        '5'
    } else if d == 6 {
        '6'
    } else if d == 7 {
        '7'
    } else if d == 8 {
        '8'
    } else {
        '9'
    }
}

fn push_decimal(out: &mut String, n: u32)
    ensures
        final(out)@ == old(out)@ + decimal(n as nat),
    decreases n,
{
    if n >= 10 {
        push_decimal(out, n / 10);
    }
    push_char(out, digit_of(n % 10));
    assert(final(out)@ =~= old(out)@ + decimal(n as nat));
}

fn push_line(out: &mut String, entry: &TocEntry)
    ensures
        final(out)@ == old(out)@ + line_text(entry@),
{
    let mut i: u32 = 0;
    while i < entry.depth
        invariant
            i <= entry.depth,
            out@ == old(out)@ + Seq::new(i as nat, |k: int| '+'),
        decreases entry.depth - i,
    {
        push_char(out, '+');
        i += 1;
        assert(out@ =~= old(out)@ + Seq::new(i as nat, |k: int| '+'));
    }
    push_decimal(out, entry.page);
    push_char(out, ' ');
    out.append(entry.title.as_str());
    assert(out@ =~= old(out)@ + line_text(entry@));
}

/// The text of a table of contents: one line per entry, joined by `'\n'`,
/// with no `'\n'` after the last line.
pub fn render_toc(toc: &Toc) -> (r: String)
    ensures
        r@ == render(toc@),
{
    let mut out = String::new();
    let n = toc.entries.len();
    let mut i: usize = 0;
    while i < n
        invariant
            n == toc.entries@.len(),
            0 <= i <= n,
            out@ == render(toc@.take(i as int)),
        decreases n - i,
    {
        let ghost before = toc@.take(i as int);
        if i > 0 {
            push_char(&mut out, '\n');
        }
        push_line(&mut out, &toc.entries[i]);
        proof {
            let now = toc@.take(i as int + 1);
            assert(now.drop_last() =~= before);
            assert(now.last() == toc.entries@[i as int]@);
            assert(out@ =~= render(now));
        }
        i += 1;
    }
    assert(toc@.take(n as int) =~= toc@);
    out
}

proof fn lemma_digit_char(d: nat)
    requires
        d < 10,
    ensures
        is_digit(digit_char(d)),
        digit_char(d) as u32 - '0' as u32 == d,
{
    let ds = seq!['0', '1', '2', '3', '4', '5', '6', '7', '8', '9'];
    assert(ds[0] == '0' && ds[1] == '1' && ds[2] == '2' && ds[3] == '3' && ds[4] == '4');
    assert(ds[5] == '5' && ds[6] == '6' && ds[7] == '7' && ds[8] == '8' && ds[9] == '9');
}

/// A decimal numeral is a non-empty run of digits.
proof fn lemma_decimal_digits(n: nat)
    ensures
        decimal(n).len() >= 1,
        forall|k: int| 0 <= k < decimal(n).len() ==> is_digit(#[trigger] decimal(n)[k]),
    decreases n,
{
    if n < 10 {
        lemma_digit_char(n);
    } else {
        lemma_decimal_digits(n / 10);
        lemma_digit_char(n % 10);
        assert forall|k: int| 0 <= k < decimal(n).len() implies is_digit(#[trigger] decimal(n)[k]) by {
            if k < decimal(n).len() - 1 {
                assert(decimal(n)[k] == decimal(n / 10)[k]);
            }
        }
    }
}

/// Reading back the decimal numeral of `n` gives `n`.
proof fn lemma_digits_value(t: Seq<char>, a: int, n: nat)
    requires
        0 <= a,
        a + decimal(n).len() <= t.len(),
        t.subrange(a, a + decimal(n).len()) == decimal(n),
    ensures
        digits_value(t, a, a + decimal(n).len()) == n,
    decreases n,
{
    let len = decimal(n).len() as int;
    if n < 10 {
        lemma_digit_char(n);
        assert(t[a] == t.subrange(a, a + len)[0]);
        assert(digits_value(t, a, a) == 0);
    } else {
        let m = n / 10;
        lemma_digit_char(n % 10);
        lemma_decimal_digits(m);
        assert(t.subrange(a, a + len - 1) =~= decimal(m));
        lemma_digits_value(t, a, m);
        assert(t[a + len - 1] == t.subrange(a, a + len)[len - 1]);
        assert(n == m * 10 + n % 10);
    }
}

proof fn lemma_plus_end(t: Seq<char>, i: int, e: int, d: int)
    requires
        0 <= i,
        0 <= d,
        i + d <= e <= t.len(),
        forall|k: int| i <= k < i + d ==> t[k] == '+',
        i + d < e ==> t[i + d] != '+',
    ensures
        plus_end(t, i, e) == i + d,
    decreases d,
{
    if d > 0 {
        lemma_plus_end(t, i + 1, e, d - 1);
    }
}

proof fn lemma_digit_end(t: Seq<char>, i: int, e: int, d: int)
    requires
        0 <= i,
        0 <= d,
        i + d <= e <= t.len(),
        forall|k: int| i <= k < i + d ==> is_digit(t[k]),
        i + d < e ==> !is_digit(t[i + d]),
    ensures
        digit_end(t, i, e) == i + d,
    decreases d,
{
    if d > 0 {
        lemma_digit_end(t, i + 1, e, d - 1);
    }
}

proof fn lemma_line_len(t: Seq<char>, i: int, m: int)
    requires
        0 <= i,
        0 <= m,
        i + m <= t.len(),
        forall|k: int| i <= k < i + m ==> t[k] != '\n',
        i + m < t.len() ==> t[i + m] == '\n',
    ensures
        line_len(t, i) == m,
    decreases m,
{
    if m > 0 {
        lemma_line_len(t, i + 1, m - 1);
    }
}

/// An entry that the text notation can state: depth and page fit in `u32`
/// and the title holds no `'\n'`.
pub open spec fn writable(e: EntryView) -> bool {
    &&& e.depth <= u32::MAX
    &&& e.page <= u32::MAX
    &&& forall|k: int| 0 <= k < e.title.len() ==> #[trigger] e.title[k] != '\n'
}

/// The line of a writable entry, found in `t` from index `s` on, is read
/// back as that entry and ends there.
proof fn lemma_parse_written_line(t: Seq<char>, s: int, x: EntryView)
    requires
        writable(x),
        0 <= s,
        s + line_text(x).len() <= t.len(),
        t.subrange(s, s + line_text(x).len()) == line_text(x),
        s + line_text(x).len() < t.len() ==> t[s + line_text(x).len()] == '\n',
    ensures
        line_len(t, s) == line_text(x).len(),
        parse_line(t, s, s + line_text(x).len()) == Ok::<EntryView, LineFault>(x),
{
    let l = line_text(x);
    let d = x.depth as int;
    let dec = decimal(x.page);
    let nd = dec.len() as int;
    let e = s + l.len();
    lemma_decimal_digits(x.page);
    assert forall|k: int| 0 <= k < l.len() implies t[s + k] == #[trigger] l[k] by {
        assert(t.subrange(s, e)[k] == t[s + k]);
    }
    assert forall|k: int| 0 <= k < d implies #[trigger] l[k] == '+' by {}
    assert forall|k: int| 0 <= k < nd implies #[trigger] l[d + k] == dec[k] by {}
    assert(l[d + nd] == ' ');
    assert forall|k: int| 0 <= k < x.title.len() implies #[trigger] l[d + nd + 1 + k] == x.title[k] by {}
    assert forall|k: int| 0 <= k < l.len() implies #[trigger] l[k] != '\n' by {
        if k < d {
        } else if k < d + nd {
            assert(l[d + (k - d)] == dec[k - d]);
        } else if k == d + nd {
        } else {
            assert(l[d + nd + 1 + (k - d - nd - 1)] == x.title[k - d - nd - 1]);
        }
    }
    assert forall|k: int| s <= k < e implies t[k] != '\n' by {
        assert(t[s + (k - s)] == l[k - s]);
    }
    lemma_line_len(t, s, l.len() as int);
    assert forall|k: int| s <= k < s + d implies t[k] == '+' by {
        assert(t[s + (k - s)] == l[k - s]);
    }
    assert(t[s + d] == l[d + 0]);
    lemma_plus_end(t, s, e, d);
    assert forall|k: int| s + d <= k < s + d + nd implies is_digit(t[k]) by {
        assert(t[s + (k - s)] == l[k - s]);
        assert(l[d + (k - s - d)] == dec[k - s - d]);
    }
    assert(t[s + (d + nd)] == l[d + nd]);
    lemma_digit_end(t, s + d, e, nd);
    assert(t.subrange(s + d, s + d + nd) =~= dec) by {
        assert forall|k: int| 0 <= k < nd implies t.subrange(s + d, s + d + nd)[k] == dec[k] by {
            assert(t[s + (d + k)] == l[d + k]);
        }
    }
    lemma_digits_value(t, s + d, x.page);
    assert(t.subrange(s + d + nd + 1, e) =~= x.title) by {
        assert forall|k: int| 0 <= k < x.title.len() implies t.subrange(s + d + nd + 1, e)[k] == x.title[k] by {
            assert(t[s + (d + nd + 1 + k)] == l[d + nd + 1 + k]);
        }
    }
}

/// A text of two or more lines is its first line, a `'\n'`, and the rest.
proof fn lemma_render_front(s: Seq<EntryView>)
    requires
        s.len() >= 2,
    ensures
        render(s) == line_text(s[0]) + seq!['\n'] + render(s.drop_first()),
    decreases s.len(),
{
    if s.len() == 2 {
        assert(s.drop_last() =~= seq![s[0]]);
        assert(s.drop_first() =~= seq![s[1]]);
        assert(render(s.drop_last()) == line_text(s[0]));
        assert(render(s.drop_first()) == line_text(s[1]));
        assert(render(s) =~= line_text(s[0]) + seq!['\n'] + render(s.drop_first()));
    } else {
        lemma_render_front(s.drop_last());
        assert(s.drop_last().drop_first() =~= s.drop_first().drop_last());
        assert(s.drop_first().last() == s.last());
        assert(render(s) =~= line_text(s[0]) + seq!['\n'] + render(s.drop_first()));
    }
}

/// The text of one or more writable entries, found at the end of `t` from
/// `pos` on, is read back as those entries.
proof fn lemma_parse_rendered(t: Seq<char>, pos: int, line: nat, s: Seq<EntryView>)
    requires
        s.len() >= 1,
        forall|k: int| 0 <= k < s.len() ==> writable(#[trigger] s[k]),
        0 <= pos <= t.len(),
        t.subrange(pos, t.len() as int) == render(s),
    ensures
        parse_from(t, pos, line) == Ok::<Seq<EntryView>, SyntaxError>(s),
    decreases s.len(),
{
    let l = line_text(s[0]);
    let e = pos + l.len();
    assert(writable(s[0]));
    lemma_decimal_digits(s[0].page);
    if s.len() == 1 {
        assert(render(s) == l);
        assert(t.subrange(pos, e) =~= l);
        lemma_parse_written_line(t, pos, s[0]);
        assert(seq![s[0]] =~= s);
    } else {
        let rest = s.drop_first();
        lemma_render_front(s);
        let r = render(s);
        assert(r.len() == l.len() + 1 + render(rest).len());
        assert forall|k: int| 0 <= k < r.len() implies t[pos + k] == #[trigger] r[k] by {
            assert(t.subrange(pos, t.len() as int)[k] == t[pos + k]);
        }
        assert(t.subrange(pos, e) =~= l) by {
            assert forall|k: int| 0 <= k < l.len() implies t.subrange(pos, e)[k] == l[k] by {
                assert(t[pos + k] == r[k]);
            }
        }
        assert(t[e] == r[l.len() as int]);
        lemma_parse_written_line(t, pos, s[0]);
        assert(t.subrange(e + 1, t.len() as int) =~= render(rest)) by {
            assert forall|k: int| 0 <= k < render(rest).len() implies t.subrange(e + 1, t.len() as int)[k]
                == render(rest)[k] by {
                assert(t[pos + (l.len() + 1 + k)] == r[l.len() + 1 + k]);
            }
        }
        assert forall|k: int| 0 <= k < rest.len() implies writable(#[trigger] rest[k]) by {
            assert(rest[k] == s[k + 1]);
        }
        lemma_parse_rendered(t, e + 1, line + 1, rest);
        assert(seq![s[0]] + rest =~= s);
    }
}

/// The text of entries that the notation can state is read back as those
/// same entries, without error; the empty text is read as no entries.
pub proof fn lemma_parse_render(s: Seq<EntryView>)
    requires
        forall|k: int| 0 <= k < s.len() ==> writable(#[trigger] s[k]),
    ensures
        parse_text(render(s)) == Ok::<Seq<EntryView>, SyntaxError>(s),
{
    if s.len() == 0 {
        assert(render(s) =~= Seq::<char>::empty());
        assert(s =~= Seq::<EntryView>::empty());
    } else {
        let t = render(s);
        assert(t.subrange(0, t.len() as int) =~= t);
        lemma_parse_rendered(t, 0, 1, s);
    }
}

/// Every line of `t` from index `pos` on writes its page without a leading
/// zero.
pub open spec fn canonical_from(t: Seq<char>, pos: int) -> bool
    decreases t.len() - pos,
{
    if pos < 0 || pos >= t.len() {
        true
    } else {
        let e = pos + line_len(t, pos);
        let a = plus_end(t, pos, e);
        &&& (a < e && t[a] == '0' ==> digit_end(t, a, e) == a + 1)
        &&& (e < t.len() ==> canonical_from(t, e + 1))
    }
}

proof fn lemma_plus_end_props(t: Seq<char>, i: int, e: int)
    requires
        0 <= i <= e <= t.len(),
    ensures
        i <= plus_end(t, i, e) <= e,
        forall|m: int| i <= m < plus_end(t, i, e) ==> t[m] == '+',
        plus_end(t, i, e) < e ==> t[plus_end(t, i, e)] != '+',
    decreases e - i,
{
    if i < e && t[i] == '+' {
        lemma_plus_end_props(t, i + 1, e);
    }
}

proof fn lemma_digit_end_props(t: Seq<char>, i: int, e: int)
    requires
        0 <= i <= e <= t.len(),
    ensures
        i <= digit_end(t, i, e) <= e,
        forall|m: int| i <= m < digit_end(t, i, e) ==> is_digit(t[m]),
        digit_end(t, i, e) < e ==> !is_digit(t[digit_end(t, i, e)]),
    decreases e - i,
{
    if i < e && is_digit(t[i]) {
        lemma_digit_end_props(t, i + 1, e);
    }
}

proof fn lemma_line_len_props(t: Seq<char>, i: int)
    requires
        0 <= i <= t.len(),
    ensures
        i + line_len(t, i) <= t.len(),
        forall|m: int| i <= m < i + line_len(t, i) ==> t[m] != '\n',
        i + line_len(t, i) < t.len() ==> t[i + line_len(t, i)] == '\n',
    decreases t.len() - i,
{
    if i < t.len() && t[i] != '\n' {
        lemma_line_len_props(t, i + 1);
    }
}

proof fn lemma_digit_char_of(c: char)
    requires
        is_digit(c),
    ensures
        (c as u32 - '0' as u32) < 10,
        digit_char((c as u32 - '0' as u32) as nat) == c,
{
    let v = (c as u32 - '0' as u32) as nat;
    lemma_digit_char(v);
}

/// Digits that start with no zero, unless alone, are read as a number whose
/// decimal numeral is those digits.
proof fn lemma_decimal_of_digits(t: Seq<char>, a: int, b: int)
    requires
        0 <= a < b <= t.len(),
        forall|m: int| a <= m < b ==> is_digit(t[m]),
        t[a] != '0' || b == a + 1,
    ensures
        decimal(digits_value(t, a, b)) == t.subrange(a, b),
        b > a + 1 ==> digits_value(t, a, b) >= 10,
        t[a] != '0' ==> digits_value(t, a, b) >= 1,
    decreases b - a,
{
    lemma_digit_char_of(t[b - 1]);
    let d = (t[b - 1] as u32 - '0' as u32) as nat;
    if b == a + 1 {
        assert(digits_value(t, a, a) == 0);
        assert(digits_value(t, a, b) == d);
        assert(decimal(d) =~= t.subrange(a, b));
        if t[a] != '0' {
            assert(d != 0);
        }
    } else {
        lemma_decimal_of_digits(t, a, b - 1);
        let v = digits_value(t, a, b - 1);
        let n = digits_value(t, a, b);
        assert(n == v * 10 + d);
        assert(v >= 1);
        assert(n / 10 == v && n % 10 == d && n >= 10) by (nonlinear_arith)
            requires
                n == v * 10 + d,
                d < 10,
                v >= 1,
        ;
        assert(decimal(n) =~= t.subrange(a, b));
    }
}

/// A line read from `t[pos .. e]` with its page written without a leading
/// zero is written back as that same text.
proof fn lemma_line_written_back(t: Seq<char>, pos: int, e: int, x: EntryView)
    requires
        0 <= pos <= e <= t.len(),
        parse_line(t, pos, e) == Ok::<EntryView, LineFault>(x),
        ({
            let a = plus_end(t, pos, e);
            a < e && t[a] == '0' ==> digit_end(t, a, e) == a + 1
        }),
    ensures
        line_text(x) == t.subrange(pos, e),
{
    let a = plus_end(t, pos, e);
    lemma_plus_end_props(t, pos, e);
    let b = digit_end(t, a, e);
    lemma_digit_end_props(t, a, e);
    lemma_decimal_of_digits(t, a, b);
    let pluses = Seq::new(x.depth, |i: int| '+');
    assert(pluses =~= t.subrange(pos, a));
    assert(line_text(x) =~= t.subrange(pos, a) + t.subrange(a, b) + seq![' '] + t.subrange(b + 1, e));
    assert(line_text(x) =~= t.subrange(pos, e));
}

proof fn lemma_render_parsed(t: Seq<char>, pos: int, line: nat, s: Seq<EntryView>)
    requires
        0 <= pos < t.len(),
        t.last() != '\n',
        parse_from(t, pos, line) == Ok::<Seq<EntryView>, SyntaxError>(s),
        canonical_from(t, pos),
    ensures
        s.len() >= 1,
        render(s) == t.subrange(pos, t.len() as int),
    decreases t.len() - pos,
{
    let e = pos + line_len(t, pos);
    lemma_line_len_props(t, pos);
    let x = parse_line(t, pos, e)->Ok_0;
    lemma_line_written_back(t, pos, e, x);
    if e >= t.len() {
        assert(s =~= seq![x]);
    } else {
        assert(e + 1 < t.len());
        let rest = parse_from(t, e + 1, line + 1)->Ok_0;
        lemma_render_parsed(t, e + 1, line + 1, rest);
        assert(s =~= seq![x] + rest);
        assert(s.drop_first() =~= rest);
        lemma_render_front(s);
        assert(t.subrange(pos, t.len() as int) =~= t.subrange(pos, e) + seq!['\n'] + t.subrange(
            e + 1,
            t.len() as int,
        ));
    }
}

/// A text that is read without error, does not end in `'\n'`, and writes
/// each page without a leading zero is written back, from its entries, as
/// that same text.
pub proof fn lemma_render_parse(t: Seq<char>, s: Seq<EntryView>)
    requires
        parse_text(t) == Ok::<Seq<EntryView>, SyntaxError>(s),
        t.len() == 0 || t.last() != '\n',
        canonical_from(t, 0),
    ensures
        render(s) == t,
{
    if t.len() == 0 {
        assert(s =~= Seq::<EntryView>::empty());
        assert(render(s) =~= t);
    } else {
        lemma_render_parsed(t, 0, 1, s);
        assert(t.subrange(0, t.len() as int) =~= t);
    }
}

impl TocEntry {
    /// The line that stands for this entry in the text notation.
    pub fn to_line(&self) -> (r: String)
        ensures
            r@ == line_text(self@),
    {
        let mut out = String::new();
        push_line(&mut out, self);
        assert(out@ =~= line_text(self@));
        out
    }
}

impl Toc {
    /// The text notation of this table of contents.
    pub fn to_text(&self) -> (r: String)
        ensures
            r@ == render(self@),
    {
        render_toc(self)
    }
}

impl std::str::FromStr for Toc {
    type Err = SyntaxError;

    /// Reads a table of contents from its text; see `parse_toc`.
    fn from_str(s: &str) -> (r: Result<Toc, SyntaxError>)
        ensures
            match r {
                Ok(toc) => parse_text(s@) == Ok::<Seq<EntryView>, SyntaxError>(toc@),
                Err(e) => parse_text(s@) == Err::<Seq<EntryView>, SyntaxError>(e),
            },
    {
        parse_toc(s)
    }
}

} // verus!
