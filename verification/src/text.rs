//! Character-level helpers: conversion between strings and character
//! vectors, decimal rendering, prefixes, line splitting and the
//! lexicographic order on texts.
use vstd::prelude::*;
use vstd::string::*;

verus! {

/// `String::push` of std: the string afterwards is the string before
/// followed by `c`.
#[verifier::external_body]
fn push_char(s: &mut String, c: char)
    ensures
        final(s)@ == old(s)@.push(c),
{
    s.push(c);
}

/// The characters of `s`, in order.
pub fn chars_of(s: &str) -> (v: Vec<char>)
    ensures
        v@ == s@,
{
    let mut v: Vec<char> = Vec::new();
    for c in it: s.chars()
        invariant
            v@ == it.seq().take(it.index() as int),
            it.seq() == s@,
    {
        v.push(c);
    }
    v
}

/// Appends the characters `v[from..to]` to `out`.
pub fn push_chars(out: &mut String, v: &Vec<char>, from: usize, to: usize)
    requires
        from <= to <= v.len(),
    ensures
        final(out)@ == old(out)@ + v@.subrange(from as int, to as int),
{
    let mut i: usize = from;
    while i < to
        invariant
            from <= i <= to <= v.len(),
            out@ == old(out)@ + v@.subrange(from as int, i as int),
        decreases to - i,
    {
        push_char(out, v[i]);
        i = i + 1;
        assert(v@.subrange(from as int, i as int) == v@.subrange(from as int, i - 1).push(
            v@[i - 1],
        ));
    }
}

/// The string made of the characters of `v`.
pub fn string_of(v: &Vec<char>) -> (s: String)
    ensures
        s@ == v@,
{
    let mut s = String::new();
    push_chars(&mut s, v, 0, v.len());
    assert(v@.subrange(0, v.len() as int) == v@);
    s
}

/// The decimal digit for `d`, for `d < 10`.
pub open spec fn digit(d: nat) -> char {
    if d == 0 {
        '0'
    } else if d == 1 {
        '1'
    } else if d == 2 {
        '2'
    } else if d == 3 {
        '3'
    } else if d == 4 {
        '4'
    } else if d == 5 {
        '5'
    } else if d == 6 {
        '6'
    } else if d == 7 {
        '7'
    } else if d == 8 {
        '8'
    } else {
        '9'
    }
}

/// The decimal numeral of `n`, without leading zeros.
pub open spec fn decimal(n: nat) -> Seq<char>
    decreases n,
{
    if n < 10 {
        seq![digit(n)]
    } else {
        decimal(n / 10).push(digit(n % 10))
    }
}

fn digit_char(d: u32) -> (c: char)
    requires
        d < 10,
    ensures
        c == digit(d as nat),
{
    if d == 0 {
        '0'
    } else if d == 1 {
        '1'
    } else if d == 2 {
        '2'
    } else if d == 3 {
        '3'
    } else if d == 4 {
        '4'
    } else if d == 5 {
        '5'
    } else if d == 6 {
        '6'
    } else if d == 7 {
        '7'
    } else if d == 8 {
        '8'
    } else {
        '9'
    }
}

/// The digits of `n`, most significant first.
pub fn decimal_chars(n: u32) -> (v: Vec<char>)
    ensures
        v@ == decimal(n as nat),
    decreases n,
{
    if n < 10 {
        let mut v: Vec<char> = Vec::new();
        v.push(digit_char(n));
        v
    } else {
        let mut v = decimal_chars(n / 10);
        v.push(digit_char(n % 10));
        v
    }
}

/// Appends the decimal numeral of `n` to `out`.
pub fn push_decimal(out: &mut String, n: u32)
    ensures
        final(out)@ == old(out)@ + decimal(n as nat),
{
    let v = decimal_chars(n);
    push_chars(out, &v, 0, v.len());
    assert(v@.subrange(0, v.len() as int) == v@);
}

/// Whether `line` begins with `prefix`; if so, what follows the prefix.
pub fn strip_prefix(line: &Vec<char>, prefix: &Vec<char>) -> (rest: Option<Vec<char>>)
    ensures
        prefix@.is_prefix_of(line@) ==> rest.is_some() && rest.unwrap()@ == line@.skip(
            prefix.len() as int,
        ),
        !prefix@.is_prefix_of(line@) ==> rest.is_none(),
{
    if line.len() < prefix.len() {
        return None;
    }
    let mut i: usize = 0;
    while i < prefix.len()
        invariant
            i <= prefix.len() <= line.len(),
            forall|k: int| 0 <= k < i ==> line@[k] == prefix@[k],
        decreases prefix.len() - i,
    {
        if line[i] != prefix[i] {
            return None;
        }
        i = i + 1;
    }
    assert(prefix@ == line@.subrange(0, prefix.len() as int));
    let mut rest: Vec<char> = Vec::new();
    let mut j: usize = prefix.len();
    while j < line.len()
        invariant
            prefix.len() <= j <= line.len(),
            rest@ == line@.subrange(prefix.len() as int, j as int),
        decreases line.len() - j,
    {
        rest.push(line[j]);
        j = j + 1;
        assert(line@.subrange(prefix.len() as int, j as int) == line@.subrange(
            prefix.len() as int,
            j - 1,
        ).push(line@[j - 1]));
    }
    assert(line@.skip(prefix.len() as int) == line@.subrange(
        prefix.len() as int,
        line.len() as int,
    ));
    Some(rest)
}

/// The position of the first line feed in `s`, or `s.len()` where it has none.
pub open spec fn first_newline(s: Seq<char>) -> int
    decreases s.len(),
{
    if s.len() == 0 {
        0
    } else if s[0] == '\n' {
        0
    } else {
        1 + first_newline(s.drop_first())
    }
}

/// `line` without one carriage return at its end, if it has one.
pub open spec fn strip_cr(line: Seq<char>) -> Seq<char> {
    if line.len() > 0 && line.last() == '\r' {
        line.drop_last()
    } else {
        line
    }
}

/// The lines of `s`. A line ends at a line feed, or at a carriage return
/// directly followed by a line feed; neither belongs to the line. What
/// follows the last line feed is a line too, unless it is empty.
pub open spec fn lines(s: Seq<char>) -> Seq<Seq<char>>
    decreases s.len(),
{
    if s.len() == 0 {
        seq![]
    } else {
        let k = first_newline(s);
        if k < 0 || k >= s.len() {
            seq![s]
        } else {
            seq![strip_cr(s.take(k))] + lines(s.skip(k + 1))
        }
    }
}

pub proof fn lemma_first_newline(s: Seq<char>)
    ensures
        0 <= first_newline(s) <= s.len(),
        first_newline(s) < s.len() ==> s[first_newline(s)] == '\n',
        forall|i: int| 0 <= i < first_newline(s) ==> s[i] != '\n',
    decreases s.len(),
{
    if s.len() > 0 && s[0] != '\n' {
        let t = s.drop_first();
        lemma_first_newline(t);
        assert forall|i: int| 0 <= i < first_newline(s) implies s[i] != '\n' by {
            if i > 0 {
                assert(s[i] == t[i - 1]);
            }
        }
    }
}

/// The first line feed of `s` is at `k` if there is one at `k` and none before.
pub proof fn lemma_first_newline_at(s: Seq<char>, k: int)
    requires
        0 <= k <= s.len(),
        k < s.len() ==> s[k] == '\n',
        forall|i: int| 0 <= i < k ==> s[i] != '\n',
    ensures
        first_newline(s) == k,
{
    lemma_first_newline(s);
}

/// The views of the names in `s`, in order.
pub open spec fn name_views(s: Seq<String>) -> Seq<Seq<char>> {
    s.map_values(|n: String| n@)
}

/// Whether `name` is among `names`.
pub fn name_listed(names: &Vec<String>, name: &String) -> (r: bool)
    ensures
        r == name_views(names@).contains(name@),
{
    let mut j: usize = 0;
    while j < names.len()
        invariant
            j <= names.len(),
            forall|k: int| 0 <= k < j ==> #[trigger] name_views(names@)[k] != name@,
        decreases names.len() - j,
    {
        if names[j] == *name {
            assert(name_views(names@)[j as int] == name@);
            return true;
        }
        j = j + 1;
    }
    false
}

/// The views of the lines in `v`.
pub open spec fn line_views(v: Seq<Vec<char>>) -> Seq<Seq<char>> {
    v.map_values(|l: Vec<char>| l@)
}

/// Splits `text` into its lines.
pub fn split_lines(text: &Vec<char>) -> (out: Vec<Vec<char>>)
    ensures
        line_views(out@) == lines(text@),
{
    let mut out: Vec<Vec<char>> = Vec::new();
    let mut pos: usize = 0;
    let n = text.len();
    assert(text@.skip(0) == text@);
    assert(line_views(out@) == Seq::<Seq<char>>::empty());
    while pos < n
        invariant
            pos <= n == text.len(),
            lines(text@) == line_views(out@) + lines(text@.skip(pos as int)),
        decreases n - pos,
    {
        let ghost rest = text@.skip(pos as int);
        let mut k: usize = pos;
        while k < n && text[k] != '\n'
            invariant
                pos <= k <= n == text.len(),
                forall|i: int| pos <= i < k ==> text@[i] != '\n',
            decreases n - k,
        {
            k = k + 1;
        }
        proof {
            lemma_first_newline_at(rest, k - pos);
        }
        let mut end: usize = k;
        if k < n && k > pos && text[k - 1] == '\r' {
            end = k - 1;
        }
        let mut line: Vec<char> = Vec::new();
        let mut j: usize = pos;
        while j < end
            invariant
                pos <= j <= end <= n == text.len(),
                line@ == text@.subrange(pos as int, j as int),
            decreases end - j,
        {
            line.push(text[j]);
            j = j + 1;
            assert(text@.subrange(pos as int, j as int) == text@.subrange(pos as int, j - 1).push(
                text@[j - 1],
            ));
        }
        let ghost before = out@;
        out.push(line);
        proof {
            assert(line_views(out@) == line_views(before).push(line@));
            if k < n {
                assert(rest.take(k - pos) == text@.subrange(pos as int, k as int));
                assert(line@ == strip_cr(rest.take(k - pos))) by {
                    if k > pos && text@[k - 1] == '\r' {
                        assert(text@.subrange(pos as int, k as int).drop_last()
                            == text@.subrange(pos as int, k - 1));
                    }
                }
                assert(rest.skip(k - pos + 1) == text@.skip(k + 1));
            } else {
                assert(line@ == rest);
                assert(text@.skip(n as int).len() == 0);
            }
        }
        pos = if k < n {
            k + 1
        } else {
            n
        };
    }
    assert(text@.skip(pos as int).len() == 0);
    out
}

/// The order of two texts by the first position at which they differ,
/// characters taken by their code; a proper prefix comes first.
pub open spec fn lex_lt(a: Seq<char>, b: Seq<char>) -> bool
    decreases a.len(),
{
    if b.len() == 0 {
        false
    } else if a.len() == 0 {
        true
    } else if a[0] != b[0] {
        a[0] < b[0]
    } else {
        lex_lt(a.drop_first(), b.drop_first())
    }
}

pub proof fn lemma_lex_irreflexive(a: Seq<char>)
    ensures
        !lex_lt(a, a),
    decreases a.len(),
{
    if a.len() > 0 {
        lemma_lex_irreflexive(a.drop_first());
    }
}

pub proof fn lemma_lex_transitive(a: Seq<char>, b: Seq<char>, c: Seq<char>)
    requires
        lex_lt(a, b),
        lex_lt(b, c),
    ensures
        lex_lt(a, c),
    decreases a.len(),
{
    if a.len() > 0 && a[0] == b[0] && b[0] == c[0] {
        lemma_lex_transitive(a.drop_first(), b.drop_first(), c.drop_first());
    }
}

pub proof fn lemma_lex_total(a: Seq<char>, b: Seq<char>)
    ensures
        lex_lt(a, b) || lex_lt(b, a) || a == b,
    decreases a.len(),
{
    if a.len() > 0 && b.len() > 0 && a[0] == b[0] {
        lemma_lex_total(a.drop_first(), b.drop_first());
        if a.drop_first() == b.drop_first() {
            assert(a =~= seq![a[0]] + a.drop_first());
            assert(b =~= seq![b[0]] + b.drop_first());
        }
    } else if a.len() == 0 && b.len() == 0 {
        assert(a =~= b);
    } else if a.len() > 0 && b.len() > 0 {
        assert((a[0] as int) != (b[0] as int));
    }
}

/// Whether `a` comes before `b` in the lexicographic order.
pub fn text_lt(a: &Vec<char>, b: &Vec<char>) -> (r: bool)
    ensures
        r == lex_lt(a@, b@),
{
    let mut i: usize = 0;
    assert(a@.skip(0) == a@ && b@.skip(0) == b@);
    while i < a.len() && i < b.len()
        invariant
            i <= a.len(),
            i <= b.len(),
            lex_lt(a@, b@) == lex_lt(a@.skip(i as int), b@.skip(i as int)),
        decreases a.len() - i,
    {
        let ghost sa = a@.skip(i as int);
        let ghost sb = b@.skip(i as int);
        assert(sa[0] == a@[i as int] && sb[0] == b@[i as int]);
        if a[i] != b[i] {
            return a[i] < b[i];
        }
        assert(sa.drop_first() == a@.skip(i + 1));
        assert(sb.drop_first() == b@.skip(i + 1));
        i = i + 1;
    }
    i < b.len()
}

} // verus!
