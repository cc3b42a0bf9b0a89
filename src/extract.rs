//! Lint records taken from the text of source files.
use crate::lint::{new_lint, normalized_desc, Lint, LintView};
use crate::pattern::{captures, compile, regex_captures, regex_compiles};
use vstd::prelude::*;

verus! {

/// A `declare_clippy_lint!` invocation: name, group and description.
pub const LINT_DECLARATION: &'static str = r#"declare_clippy_lint!\s*[\{(]\s*pub\s+(?P<name>[A-Z_][A-Z_0-9]*)\s*,\s*(?P<cat>[a-z_]+)\s*,\s*"(?P<desc>(?:[^"\\]+|\\(?s).(?-s))*)"\s*[})]"#;

/// A `declare_deprecated_lint!` invocation: name and reason.
pub const DEPRECATED_DECLARATION: &'static str = r#"declare_deprecated_lint!\s*[{(]\s*pub\s+(?P<name>[A-Z_][A-Z_0-9]*)\s*,\s*"(?P<desc>(?:[^"\\]+|\\(?s).(?-s))*)"\s*[})]"#;

/// The group name that deprecated lints get.
pub const DEPRECATED_GROUP: &'static str = "Deprecated";

/// The text of group `i` of a match, empty where the group took no part.
pub open spec fn group_text(row: Seq<Option<Seq<char>>>, i: int) -> Seq<char> {
    if 0 <= i < row.len() && row[i] is Some {
        row[i]->0
    } else {
        seq![]
    }
}

/// The groups of each match of `pattern` in `content`; none where the
/// pattern does not compile.
pub open spec fn matches_in(pattern: Seq<char>, content: Seq<char>) -> Seq<Seq<Option<Seq<char>>>> {
    if regex_compiles(pattern) {
        regex_captures(pattern, content)
    } else {
        seq![]
    }
}

/// The record of a match of the lint declaration.
pub open spec fn declared_lint(row: Seq<Option<Seq<char>>>, module: Seq<char>) -> LintView {
    new_lint(group_text(row, 1), group_text(row, 2), group_text(row, 3), None, module)
}

/// The record of a match of the deprecated declaration: its reason is both
/// its description and its deprecation.
pub open spec fn deprecated_lint(row: Seq<Option<Seq<char>>>, module: Seq<char>) -> LintView {
    new_lint(
        group_text(row, 1),
        DEPRECATED_GROUP@,
        group_text(row, 2),
        Some(group_text(row, 2)),
        module,
    )
}

/// The records declared in `content`: those of the lint declarations, then
/// those of the deprecated ones, each in the order of the text.
pub open spec fn parsed(content: Seq<char>, module: Seq<char>) -> Seq<LintView> {
    matches_in(LINT_DECLARATION@, content).map_values(
        |row: Seq<Option<Seq<char>>>| declared_lint(row, module),
    ) + matches_in(DEPRECATED_DECLARATION@, content).map_values(
        |row: Seq<Option<Seq<char>>>| deprecated_lint(row, module),
    )
}

/// The records of each file in turn, a file being its module name and its text.
pub open spec fn gathered(files: Seq<(Seq<char>, Seq<char>)>) -> Seq<LintView>
    decreases files.len(),
{
    if files.len() == 0 {
        seq![]
    } else {
        gathered(files.drop_last()) + parsed(files.last().1, files.last().0)
    }
}

fn group_str(row: &Vec<Option<String>>, i: usize) -> (r: &str)
    ensures
        r@ == group_text(row.deep_view(), i as int),
{
    proof {
        reveal_strlit("");
    }
    if i < row.len() {
        assert(row.deep_view()[i as int] == row@[i as int].deep_view());
        match &row[i] {
            Some(s) => s.as_str(),
            None => "",
        }
    } else {
        ""
    }
}

/// The records of the matches of `pattern` in `content`; deprecated ones
/// where `deprecated` holds.
fn lints_of_matches(pattern: &str, content: &str, module: &str, deprecated: bool) -> (r: Vec<Lint>)
    ensures
        r.deep_view() == (if deprecated {
            matches_in(pattern@, content@).map_values(
                |row: Seq<Option<Seq<char>>>| deprecated_lint(row, module@),
            )
        } else {
            matches_in(pattern@, content@).map_values(
                |row: Seq<Option<Seq<char>>>| declared_lint(row, module@),
            )
        }),
{
    let mut out: Vec<Lint> = Vec::new();
    let p = match compile(pattern) {
        Ok(p) => p,
        Err(_) => {
            assert(out.deep_view() =~= Seq::<LintView>::empty());
            return out;
        },
    };
    let rows = captures(&p, content);
    let ghost rs = rows.deep_view();
    proof {
        reveal_strlit("");
    }
    let mut i: usize = 0;
    while i < rows.len()
        invariant
            i <= rows@.len(),
            rs == rows.deep_view(),
            rs == matches_in(pattern@, content@),
            out.deep_view() == (if deprecated {
                rs.subrange(0, i as int).map_values(
                    |row: Seq<Option<Seq<char>>>| deprecated_lint(row, module@),
                )
            } else {
                rs.subrange(0, i as int).map_values(
                    |row: Seq<Option<Seq<char>>>| declared_lint(row, module@),
                )
            }),
        decreases rows.len() - i,
    {
        let row = &rows[i];
        assert(row.deep_view() == rs[i as int]);
        let lint = if deprecated {
            let desc = group_str(row, 2);
            Lint::new(group_str(row, 1), DEPRECATED_GROUP, desc, Some(desc), module)
        } else {
            Lint::new(group_str(row, 1), group_str(row, 2), group_str(row, 3), None, module)
        };
        let ghost before = out.deep_view();
        out.push(lint);
        assert(out.deep_view() =~= before.push(lint@));
        assert(rs.subrange(0, i + 1) =~= rs.subrange(0, i as int).push(rs[i as int]));
        i = i + 1;
    }
    assert(rs.subrange(0, rows@.len() as int) =~= rs);
    out
}

/// The records declared in `content`, all tagged with the module `filename`.
pub fn parse_contents(content: &str, filename: &str) -> (r: Vec<Lint>)
    ensures
        r.deep_view() == parsed(content@, filename@),
{
    let mut lints = lints_of_matches(LINT_DECLARATION, content, filename, false);
    let mut deprecated = lints_of_matches(DEPRECATED_DECLARATION, content, filename, true);
    let ghost a = lints.deep_view();
    let ghost b = deprecated.deep_view();
    lints.append(&mut deprecated);
    assert(lints.deep_view() =~= a + b);
    lints
}

/// Gathers the lints of every file, a file being its module name and its text.
pub fn gather_all(files: &[(String, String)]) -> (r: Vec<Lint>)
    ensures
        r.deep_view() == gathered(files@.map_values(|f: (String, String)| (f.0@, f.1@))),
{
    let ghost fs = files@.map_values(|f: (String, String)| (f.0@, f.1@));
    let mut out: Vec<Lint> = Vec::new();
    let mut i: usize = 0;
    while i < files.len()
        invariant
            i <= files@.len(),
            fs == files@.map_values(|f: (String, String)| (f.0@, f.1@)),
            out.deep_view() == gathered(fs.subrange(0, i as int)),
        decreases files.len() - i,
    {
        let (module, content) = &files[i];
        let mut found = parse_contents(content.as_str(), module.as_str());
        let ghost a = out.deep_view();
        let ghost b = found.deep_view();
        out.append(&mut found);
        assert(out.deep_view() =~= a + b);
        assert(fs.subrange(0, i + 1).drop_last() =~= fs.subrange(0, i as int));
        i = i + 1;
    }
    assert(fs.subrange(0, files@.len() as int) =~= fs);
    out
}

/// Records of the lint declaration are never deprecated; records of the
/// deprecated declaration are in the deprecated group, with their reason as
/// deprecation and, normalized, as description.
pub proof fn lemma_parsed_kinds(content: Seq<char>, module: Seq<char>)
    ensures
        forall|i: int|
            0 <= i < matches_in(LINT_DECLARATION@, content).len() ==> (#[trigger] parsed(
                content,
                module,
            )[i]).deprecation is None,
        forall|i: int|
            matches_in(LINT_DECLARATION@, content).len() <= i < parsed(content, module).len() ==> {
                let l = #[trigger] parsed(content, module)[i];
                &&& l.group == DEPRECATED_GROUP@
                &&& l.deprecation is Some
                &&& l.desc == normalized_desc(l.deprecation->0)
            },
{
}

} // verus!
