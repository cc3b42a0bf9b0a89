//! Character-level helpers on strings: prefixes, escapes, line splitting
//! and joining, and the lexicographic order of names.
use vstd::prelude::*;

verus! {

/// `p` is a prefix of `s`.
pub open spec fn has_prefix(s: Seq<char>, p: Seq<char>) -> bool {
    p.len() <= s.len() && s.subrange(0, p.len() as int) == p
}

/// Whether `s` starts with `p`.
pub fn starts_with(s: &str, p: &str) -> (r: bool)
    ensures
        r == has_prefix(s@, p@),
{
    let n = s.unicode_len();
    let m = p.unicode_len();
    if m > n {
        return false;
    }
    let mut i: usize = 0;
    while i < m
        invariant
            m == p@.len(),
            n == s@.len(),
            m <= n,
            i <= m,
            forall|j: int| 0 <= j < i ==> s@[j] == p@[j],
        decreases m - i,
    {
        if s.get_char(i) != p.get_char(i) {
            return false;
        }
        i = i + 1;
    }
    assert(s@.subrange(0, m as int) =~= p@);
    true
}

/// `s` with every escaped quote (a backslash before a double quote)
/// replaced by the bare quote, matches taken from left to right.
pub open spec fn unescape_quotes(s: Seq<char>) -> Seq<char>
    decreases s.len(),
{
    if s.len() == 0 {
        seq![]
    } else if s.len() >= 2 && s[0] == '\\' && s[1] == '"' {
        seq!['"'] + unescape_quotes(s.subrange(2, s.len() as int))
    } else {
        seq![s[0]] + unescape_quotes(s.subrange(1, s.len() as int))
    }
}

proof fn lemma_unescape_split(s: Seq<char>, i: int, k: int)
    requires
        0 <= i <= s.len(),
        k == 1 || k == 2,
        i + k <= s.len(),
        k == 2 <==> (i + 1 < s.len() && s[i] == '\\' && s[i + 1] == '"'),
    ensures
        unescape_quotes(s.subrange(i, s.len() as int)) == (if k == 2 {
            seq!['"']
        } else {
            seq![s[i]]
        }) + unescape_quotes(s.subrange(i + k, s.len() as int)),
{
    let t = s.subrange(i, s.len() as int);
    assert(t.subrange(k, t.len() as int) =~= s.subrange(i + k, s.len() as int));
    if k == 1 && t.len() >= 2 {
        assert(!(t[0] == '\\' && t[1] == '"'));
    }
}

/// Replaces each escaped quote of `s` by a bare quote.
pub fn unescape(s: &str) -> (r: String)
    ensures
        r@ == unescape_quotes(s@),
{
    let n = s.unicode_len();
    let mut out = String::new();
    let mut i: usize = 0;
    assert(s@.subrange(0, n as int) =~= s@);
    assert(out@ + unescape_quotes(s@) =~= unescape_quotes(s@));
    while i < n
        invariant
            n == s@.len(),
            i <= n,
            out@ + unescape_quotes(s@.subrange(i as int, n as int)) == unescape_quotes(s@),
        decreases n - i,
    {
        let c = s.get_char(i);
        if c == '\\' && i + 1 < n && s.get_char(i + 1) == '"' {
            proof {
                lemma_unescape_split(s@, i as int, 2);
            }
            out.append("\"");
            proof {
                reveal_strlit("\"");
            }
            assert(out@ + unescape_quotes(s@.subrange(i + 2, n as int)) =~= unescape_quotes(s@));
            i = i + 2;
        } else {
            proof {
                lemma_unescape_split(s@, i as int, 1);
            }
            out.append(s.substring_char(i, i + 1));
            assert(s@.subrange(i as int, i + 1) =~= seq![c]);
            assert(out@ + unescape_quotes(s@.subrange(i + 1, n as int)) =~= unescape_quotes(s@));
            i = i + 1;
        }
    }
    assert(s@.subrange(n as int, n as int) =~= Seq::<char>::empty());
    assert(out@ =~= out@ + unescape_quotes(Seq::<char>::empty()));
    out
}

/// The pieces of `s` between its newline characters, as splitting at every
/// newline gives them: one piece more than there are newlines.
pub open spec fn split_at_newlines(s: Seq<char>) -> Seq<Seq<char>>
    decreases s.len(),
{
    if s.len() == 0 {
        seq![seq![]]
    } else {
        let rest = split_at_newlines(s.drop_last());
        if s.last() == '\n' {
            rest.push(seq![])
        } else {
            rest.update(rest.len() - 1, rest.last().push(s.last()))
        }
    }
}

/// A line that a newline ended, without a carriage return before that newline.
pub open spec fn strip_cr(l: Seq<char>) -> Seq<char> {
    if l.len() > 0 && l.last() == '\r' {
        l.drop_last()
    } else {
        l
    }
}

/// The lines of `s`: every piece that a newline ends, without a carriage
/// return at its end, then the last piece unless it is empty. A final line
/// ending thus adds no empty line.
pub open spec fn lines_of(s: Seq<char>) -> Seq<Seq<char>> {
    let p = split_at_newlines(s);
    let ended = p.drop_last().map_values(|l: Seq<char>| strip_cr(l));
    if p.last().len() == 0 {
        ended
    } else {
        ended.push(p.last())
    }
}

/// Splits `text` into its lines.
pub fn split_lines(text: &str) -> (r: Vec<String>)
    ensures
        r@.map_values(|l: String| l@) == lines_of(text@),
{
    let n = text.unicode_len();
    let mut out: Vec<String> = Vec::new();
    let mut start: usize = 0;
    let mut i: usize = 0;
    let ghost mut raw: Seq<Seq<char>> = seq![];
    proof {
        assert(text@.subrange(0, 0) =~= Seq::<char>::empty());
    }
    while i < n
        invariant
            n == text@.len(),
            start <= i <= n,
            split_at_newlines(text@.subrange(0, i as int)) == raw.push(
                text@.subrange(start as int, i as int),
            ),
            out@.map_values(|l: String| l@) == raw.map_values(|l: Seq<char>| strip_cr(l)),
        decreases n - i,
    {
        let c = text.get_char(i);
        let ghost pre = text@.subrange(0, i as int);
        assert(text@.subrange(0, i + 1).drop_last() =~= pre);
        if c == '\n' {
            let mut end = i;
            if end > start && text.get_char(end - 1) == '\r' {
                end = end - 1;
            }
            let piece = text.substring_char(start, end);
            let line = String::from_str(piece);
            proof {
                let full = text@.subrange(start as int, i as int);
                if end < i {
                    assert(full.drop_last() =~= line@);
                } else {
                    assert(full =~= line@);
                }
                assert(strip_cr(full) == line@);
                assert(raw.push(full).map_values(|l: Seq<char>| strip_cr(l)) =~= raw.map_values(
                    |l: Seq<char>| strip_cr(l),
                ).push(line@));
                raw = raw.push(full);
                assert(text@.subrange(i + 1, i + 1) =~= Seq::<char>::empty());
            }
            out.push(line);
            assert(out@.map_values(|l: String| l@) =~= raw.map_values(|l: Seq<char>| strip_cr(l)));
            start = i + 1;
        } else {
            proof {
                assert(text@.subrange(start as int, i + 1) =~= text@.subrange(
                    start as int,
                    i as int,
                ).push(c));
                assert(raw.push(text@.subrange(start as int, i as int)).update(
                    raw.len() as int,
                    text@.subrange(start as int, i + 1),
                ) =~= raw.push(text@.subrange(start as int, i + 1)));
            }
        }
        i = i + 1;
    }
    assert(text@.subrange(0, n as int) =~= text@);
    let ghost p = split_at_newlines(text@);
    assert(p.drop_last() =~= raw);
    if start < n {
        let last = String::from_str(text.substring_char(start, n));
        out.push(last);
        assert(out@.map_values(|l: String| l@) =~= lines_of(text@));
    } else {
        assert(out@.map_values(|l: String| l@) =~= lines_of(text@));
    }
    out
}

/// The lines of `ls` with one newline between each two.
pub open spec fn join_lines(ls: Seq<Seq<char>>) -> Seq<char>
    decreases ls.len(),
{
    if ls.len() == 0 {
        seq![]
    } else if ls.len() == 1 {
        ls[0]
    } else {
        join_lines(ls.drop_last()) + seq!['\n'] + ls.last()
    }
}

/// Joins `lines` with a newline between each two.
pub fn join_with_newlines(lines: &Vec<String>) -> (r: String)
    ensures
        r@ == join_lines(lines@.map_values(|l: String| l@)),
{
    let ghost vs = lines@.map_values(|l: String| l@);
    let mut out = String::new();
    let mut i: usize = 0;
    while i < lines.len()
        invariant
            i <= lines@.len(),
            vs == lines@.map_values(|l: String| l@),
            out@ == join_lines(vs.subrange(0, i as int)),
        decreases lines.len() - i,
    {
        proof {
            reveal_strlit("\n");
            assert(vs.subrange(0, i + 1).drop_last() =~= vs.subrange(0, i as int));
        }
        if i > 0 {
            out.append("\n");
        }
        out.append(lines[i].as_str());
        proof {
            if i == 0 {
                assert(out@ =~= vs.subrange(0, 1)[0]);
            } else {
                assert(out@ =~= join_lines(vs.subrange(0, i as int)) + seq!['\n'] + vs[i as int]);
            }
        }
        i = i + 1;
    }
    assert(vs.subrange(0, lines@.len() as int) =~= vs);
    out
}

/// The order of `String`: code point by code point, a proper prefix first.
pub open spec fn lex_le(a: Seq<char>, b: Seq<char>) -> bool
    decreases a.len(),
{
    if a.len() == 0 {
        true
    } else if b.len() == 0 {
        false
    } else if a[0] != b[0] {
        a[0] < b[0]
    } else {
        lex_le(a.drop_first(), b.drop_first())
    }
}

pub proof fn lemma_lex_total(a: Seq<char>, b: Seq<char>)
    ensures
        lex_le(a, b) || lex_le(b, a),
    decreases a.len(),
{
    if a.len() > 0 && b.len() > 0 && a[0] == b[0] {
        lemma_lex_total(a.drop_first(), b.drop_first());
    }
}

pub proof fn lemma_lex_trans(a: Seq<char>, b: Seq<char>, c: Seq<char>)
    requires
        lex_le(a, b),
        lex_le(b, c),
    ensures
        lex_le(a, c),
    decreases a.len(),
{
    if a.len() > 0 && b.len() > 0 && c.len() > 0 && a[0] == b[0] && b[0] == c[0] {
        lemma_lex_trans(a.drop_first(), b.drop_first(), c.drop_first());
    }
}

/// Whether `a` comes before `b` or equals it in the order of `String`.
pub fn string_le(a: &str, b: &str) -> (r: bool)
    ensures
        r == lex_le(a@, b@),
{
    let n = a.unicode_len();
    let m = b.unicode_len();
    let mut i: usize = 0;
    assert(a@.subrange(0, n as int) =~= a@);
    assert(b@.subrange(0, m as int) =~= b@);
    while i < n && i < m
        invariant
            n == a@.len(),
            m == b@.len(),
            i <= n,
            i <= m,
            forall|j: int| 0 <= j < i ==> a@[j] == b@[j],
            lex_le(a@, b@) == lex_le(a@.subrange(i as int, n as int), b@.subrange(i as int, m as int)),
        decreases n - i,
    {
        let x = a.get_char(i);
        let y = b.get_char(i);
        if x != y {
            return x < y;
        }
        assert(a@.subrange(i as int, n as int).drop_first() =~= a@.subrange(i + 1, n as int));
        assert(b@.subrange(i as int, m as int).drop_first() =~= b@.subrange(i + 1, m as int));
        i = i + 1;
    }
    i == n
}

} // verus!
