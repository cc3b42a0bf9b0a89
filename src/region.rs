//! Replacement of the region of a text between a start line and an end line.
use crate::pattern::{compile, is_match, regex_compiles, regex_finds, Pattern};
use crate::text::{join_lines, join_with_newlines, lines_of, split_lines};
use vstd::prelude::*;

verus! {

/// The index of the first line at or after `from` that `pattern` matches, or
/// the number of lines where there is none.
pub open spec fn first_match(pattern: Seq<char>, lines: Seq<Seq<char>>, from: int) -> int
    decreases lines.len() - from,
{
    if from < 0 || from >= lines.len() {
        lines.len() as int
    } else if regex_finds(pattern, lines[from]) {
        from
    } else {
        first_match(pattern, lines, from + 1)
    }
}

/// Whether a start line is followed by an end line, so that a region closes.
pub open spec fn region_closes(lines: Seq<Seq<char>>, start: Seq<char>, end: Seq<char>) -> bool {
    let s = first_match(start, lines, 0);
    s < lines.len() && first_match(end, lines, s + 1) < lines.len()
}

/// `lines` with the lines after the first start line up to the next end line
/// replaced by `replacement`. The start line stays unless `replace_start`
/// holds; the end line always stays. Without a start line nothing changes;
/// without an end line after it, everything after the start line goes.
pub open spec fn region_replaced(
    lines: Seq<Seq<char>>,
    start: Seq<char>,
    end: Seq<char>,
    replace_start: bool,
    replacement: Seq<Seq<char>>,
) -> Seq<Seq<char>> {
    let s = first_match(start, lines, 0);
    if s >= lines.len() {
        lines
    } else {
        let head = lines.subrange(0, s) + (if replace_start {
            seq![]
        } else {
            seq![lines[s]]
        });
        let e = first_match(end, lines, s + 1);
        if e >= lines.len() {
            head
        } else {
            head + replacement + lines.subrange(e, lines.len() as int)
        }
    }
}

/// The lines strictly between the start line and the end line of the region.
pub open spec fn region_interior(lines: Seq<Seq<char>>, start: Seq<char>, end: Seq<char>) -> Seq<
    Seq<char>,
> {
    let s = first_match(start, lines, 0);
    lines.subrange(s + 1, first_match(end, lines, s + 1))
}

proof fn lemma_first_match(pattern: Seq<char>, lines: Seq<Seq<char>>, from: int)
    requires
        0 <= from <= lines.len(),
    ensures
        from <= first_match(pattern, lines, from) <= lines.len(),
        forall|j: int|
            from <= j < first_match(pattern, lines, from) ==> !regex_finds(pattern, #[trigger] lines[j]),
        first_match(pattern, lines, from) < lines.len() ==> regex_finds(
            pattern,
            lines[first_match(pattern, lines, from)],
        ),
    decreases lines.len() - from,
{
    if from < lines.len() && !regex_finds(pattern, lines[from]) {
        lemma_first_match(pattern, lines, from + 1);
    }
}

proof fn lemma_first_match_is(pattern: Seq<char>, lines: Seq<Seq<char>>, from: int, k: int)
    requires
        0 <= from <= k <= lines.len(),
        forall|j: int| from <= j < k ==> !regex_finds(pattern, #[trigger] lines[j]),
        k < lines.len() ==> regex_finds(pattern, lines[k]),
    ensures
        first_match(pattern, lines, from) == k,
    decreases lines.len() - from,
{
    if from < k {
        lemma_first_match_is(pattern, lines, from + 1, k);
    }
}

/// Replacing a closed region, then replacing it again by the lines it held
/// first, gives the same lines back, provided that no replacement line
/// is itself an end line.
pub proof fn lemma_region_round_trip(
    lines: Seq<Seq<char>>,
    start: Seq<char>,
    end: Seq<char>,
    replacement: Seq<Seq<char>>,
)
    requires
        region_closes(lines, start, end),
        forall|i: int| 0 <= i < replacement.len() ==> !regex_finds(end, #[trigger] replacement[i]),
    ensures
        region_replaced(
            region_replaced(lines, start, end, false, replacement),
            start,
            end,
            false,
            region_interior(lines, start, end),
        ) == lines,
{
    let s = first_match(start, lines, 0);
    lemma_first_match(start, lines, 0);
    let e = first_match(end, lines, s + 1);
    lemma_first_match(end, lines, s + 1);
    let once = region_replaced(lines, start, end, false, replacement);
    assert(once == lines.subrange(0, s) + seq![lines[s]] + replacement + lines.subrange(
        e,
        lines.len() as int,
    ));
    assert forall|j: int| 0 <= j < s implies !regex_finds(start, #[trigger] once[j]) by {
        assert(once[j] == lines[j]);
    }
    assert(once[s] == lines[s]);
    lemma_first_match_is(start, once, 0, s);
    let e2 = s + 1 + replacement.len();
    assert forall|j: int| s + 1 <= j < e2 implies !regex_finds(end, #[trigger] once[j]) by {
        assert(once[j] == replacement[j - s - 1]);
    }
    assert(once[e2] == lines[e]);
    lemma_first_match_is(end, once, s + 1, e2);
    assert(region_replaced(once, start, end, false, region_interior(lines, start, end)) =~= lines);
}

/// The first index at or after `from` whose line `p` matches, or the number
/// of lines.
fn find_match(p: &Pattern, lines: &Vec<String>, from: usize) -> (r: usize)
    requires
        from <= lines@.len(),
    ensures
        r == first_match(p@, lines@.map_values(|l: String| l@), from as int),
{
    let ghost ls = lines@.map_values(|l: String| l@);
    let mut i = from;
    while i < lines.len()
        invariant
            from <= i <= lines@.len(),
            ls == lines@.map_values(|l: String| l@),
            first_match(p@, ls, from as int) == first_match(p@, ls, i as int),
        decreases lines.len() - i,
    {
        if is_match(p, lines[i].as_str()) {
            return i;
        }
        i = i + 1;
    }
    i
}

/// Appends a copy of each line of `src` in `lo..hi` to `out`.
fn push_lines(out: &mut Vec<String>, src: &Vec<String>, lo: usize, hi: usize)
    requires
        lo <= hi <= src@.len(),
    ensures
        final(out)@.map_values(|l: String| l@) == old(out)@.map_values(|l: String| l@) + src@.subrange(
            lo as int,
            hi as int,
        ).map_values(|l: String| l@),
{
    let ghost start = out@.map_values(|l: String| l@);
    let mut i = lo;
    while i < hi
        invariant
            lo <= i <= hi <= src@.len(),
            out@.map_values(|l: String| l@) == start + src@.subrange(lo as int, i as int).map_values(
                |l: String| l@,
            ),
        decreases hi - i,
    {
        let ghost before = out@;
        out.push(src[i].clone());
        assert(out@.map_values(|l: String| l@) =~= before.map_values(|l: String| l@).push(src@[i as int]@));
        assert(src@.subrange(lo as int, i + 1).map_values(|l: String| l@) =~= src@.subrange(
            lo as int,
            i as int,
        ).map_values(|l: String| l@).push(src@[i as int]@));
        i = i + 1;
    }
}

/// Replace a region in a text delimited by two lines matching regexes.
///
/// `start` and `end` are regular expressions. The first line that `start`
/// matches opens the region, and is kept unless `replace_start` holds; the
/// next line that `end` matches closes it and is kept. The lines between
/// are replaced by those that `replacements` returns. The lines of the
/// result are joined by single newlines. An invalid pattern is an error.
pub fn replace_region_in_text<F>(
    text: &str,
    start: &str,
    end: &str,
    replace_start: bool,
    replacements: F,
) -> (r: Result<String, regex::Error>) where F: Fn() -> Vec<String>
    requires
        replacements.requires(()),
    ensures
        r is Ok <==> regex_compiles(start@) && regex_compiles(end@),
        r matches Ok(t) ==> (if region_closes(lines_of(text@), start@, end@) {
            exists|v: Vec<String>|
                #![trigger replacements.ensures((), v)]
                replacements.ensures((), v) && t@ == join_lines(
                    region_replaced(
                        lines_of(text@),
                        start@,
                        end@,
                        replace_start,
                        v@.map_values(|l: String| l@),
                    ),
                )
        } else {
            t@ == join_lines(region_replaced(lines_of(text@), start@, end@, replace_start, seq![]))
        }),
{
    let start_re = match compile(start) {
        Ok(p) => p,
        Err(e) => return Err(e),
    };
    let end_re = match compile(end) {
        Ok(p) => p,
        Err(e) => return Err(e),
    };
    let lines = split_lines(text);
    let ghost ls = lines@.map_values(|l: String| l@);
    let n = lines.len();
    let s = find_match(&start_re, &lines, 0);
    proof {
        lemma_first_match(start@, ls, 0);
    }
    let mut out: Vec<String> = Vec::new();
    if s == n {
        push_lines(&mut out, &lines, 0, n);
        assert(ls.subrange(0, n as int) =~= ls);
        assert(out@.map_values(|l: String| l@) =~= ls);
        assert(region_replaced(ls, start@, end@, replace_start, seq![]) == ls);
        let t = join_with_newlines(&out);
        return Ok(t);
    }
    push_lines(&mut out, &lines, 0, s);
    if !replace_start {
        push_lines(&mut out, &lines, s, s + 1);
        assert(ls.subrange(s as int, s + 1) =~= seq![ls[s as int]]);
    }
    let ghost head = out@.map_values(|l: String| l@);
    assert(head =~= ls.subrange(0, s as int) + (if replace_start {
        seq![]
    } else {
        seq![ls[s as int]]
    }));
    let e = find_match(&end_re, &lines, s + 1);
    proof {
        lemma_first_match(end@, ls, s + 1);
    }
    if e == n {
        let t = join_with_newlines(&out);
        return Ok(t);
    }
    let generated = replacements();
    let ghost g = generated@.map_values(|l: String| l@);
    push_lines(&mut out, &generated, 0, generated.len());
    assert(generated@.subrange(0, generated@.len() as int) =~= generated@);
    push_lines(&mut out, &lines, e, n);
    assert(out@.map_values(|l: String| l@) =~= region_replaced(ls, start@, end@, replace_start, g));
    let t = join_with_newlines(&out);
    assert(replacements.ensures((), generated));
    Ok(t)
}

/// Whether some line of `text` matches `start`, so that a region can open.
/// An invalid pattern is an error.
pub fn has_region_start(text: &str, start: &str) -> (r: Result<bool, regex::Error>)
    ensures
        r is Ok <==> regex_compiles(start@),
        r matches Ok(found) ==> found == (first_match(start@, lines_of(text@), 0) < lines_of(
            text@,
        ).len()),
{
    let start_re = match compile(start) {
        Ok(p) => p,
        Err(e) => return Err(e),
    };
    let lines = split_lines(text);
    let s = find_match(&start_re, &lines, 0);
    proof {
        lemma_first_match(start@, lines@.map_values(|l: String| l@), 0);
    }
    Ok(s < lines.len())
}

} // verus!
