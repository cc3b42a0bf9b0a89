//! The lint record and the operations on collections of records.
use crate::pattern::{compile, regex_compiles, regex_replaced_all, replace_all};
use crate::text::{has_prefix, starts_with, unescape, unescape_quotes};
use std::collections::HashMap;
use vstd::prelude::*;

verus! {

/// Where the documentation of every lint lives; each lint has an anchor there.
pub const DOCS_LINK: &'static str = "https://rust-lang-nursery.github.io/rust-clippy/master/index.html";

/// The group name prefix of lints that are not meant for users.
pub const INTERNAL_PREFIX: &'static str = "internal";

/// A backslash at the end of a line of a string literal, with the newline and
/// the indentation that follow it.
pub const LINE_CONTINUATION: &'static str = "\\\\\\n\\s*";

/// What `str::to_lowercase` makes of `s`.
pub uninterp spec fn lower_of(s: Seq<char>) -> Seq<char>;

/// Relies on str::to_lowercase: the lowercase form of each character.
#[verifier::external_body]
fn lowercase(s: &str) -> (r: String)
    ensures
        r@ == lower_of(s@),
{
    s.to_lowercase()
}

/// Lint data parsed from the Clippy source code.
#[derive(Clone, PartialEq, Debug)]
pub struct Lint {
    pub name: String,
    pub group: String,
    pub desc: String,
    pub deprecation: Option<String>,
    pub module: String,
}

/// The content of a [`Lint`].
pub struct LintView {
    pub name: Seq<char>,
    pub group: Seq<char>,
    pub desc: Seq<char>,
    pub deprecation: Option<Seq<char>>,
    pub module: Seq<char>,
}

impl View for Lint {
    type V = LintView;

    open spec fn view(&self) -> LintView {
        LintView {
            name: self.name@,
            group: self.group@,
            desc: self.desc@,
            deprecation: match self.deprecation {
                Some(d) => Some(d@),
                None => None,
            },
            module: self.module@,
        }
    }
}

impl DeepView for Lint {
    type V = LintView;

    open spec fn deep_view(&self) -> LintView {
        self@
    }
}

/// The view of an optional borrowed string.
pub open spec fn opt_view(o: Option<&str>) -> Option<Seq<char>> {
    match o {
        Some(d) => Some(d@),
        None => None,
    }
}

/// A description as a record holds it: escaped quotes unescaped, then line
/// continuations removed.
pub open spec fn normalized_desc(d: Seq<char>) -> Seq<char> {
    let u = unescape_quotes(d);
    if regex_compiles(LINE_CONTINUATION@) {
        regex_replaced_all(LINE_CONTINUATION@, u, seq![])
    } else {
        u
    }
}

/// The record that [`Lint::new`] builds from its arguments.
pub open spec fn new_lint(
    name: Seq<char>,
    group: Seq<char>,
    desc: Seq<char>,
    deprecation: Option<Seq<char>>,
    module: Seq<char>,
) -> LintView {
    LintView {
        name: lower_of(name),
        group,
        desc: normalized_desc(desc),
        deprecation,
        module,
    }
}

/// A lint is internal when its group starts with the internal prefix.
pub open spec fn internal(l: LintView) -> bool {
    has_prefix(l.group, INTERNAL_PREFIX@)
}

/// A lint is usable when it is neither deprecated nor internal.
pub open spec fn usable(l: LintView) -> bool {
    l.deprecation is None && !internal(l)
}

/// The lints of `ls` in the given group, in their order.
pub open spec fn in_group(ls: Seq<LintView>, g: Seq<char>) -> Seq<LintView> {
    ls.filter(group_is(g))
}

/// The lints of `ls` grouped by their group name: every group that occurs,
/// mapped to its lints in their order.
pub open spec fn grouped(ls: Seq<LintView>) -> Map<Seq<char>, Seq<LintView>> {
    Map::new(|g: Seq<char>| exists|i: int| 0 <= i < ls.len() && ls[i].group == g, |g: Seq<char>| in_group(ls, g))
}

/// The key-value pairs of `ps` grouped by key: every key that occurs, mapped
/// to its values in their order.
pub open spec fn grouped_pairs(ps: Seq<(Seq<char>, LintView)>) -> Map<Seq<char>, Seq<LintView>> {
    Map::new(
        |k: Seq<char>| exists|i: int| 0 <= i < ps.len() && ps[i].0 == k,
        |k: Seq<char>| values_of(ps, k),
    )
}

/// A lint paired with its group name.
pub open spec fn keyed(l: LintView) -> (Seq<char>, LintView) {
    (l.group, l)
}

/// Whether a pair has the key `k`.
pub open spec fn key_is(k: Seq<char>) -> spec_fn((Seq<char>, LintView)) -> bool {
    |p: (Seq<char>, LintView)| p.0 == k
}

/// Whether a lint is in the group `g`.
pub open spec fn group_is(g: Seq<char>) -> spec_fn(LintView) -> bool {
    |l: LintView| l.group == g
}

/// The values of the pairs of `ps` whose key is `k`, in their order.
pub open spec fn values_of(ps: Seq<(Seq<char>, LintView)>, k: Seq<char>) -> Seq<LintView> {
    ps.filter(key_is(k)).map_values(|p: (Seq<char>, LintView)| p.1)
}

/// Relies on itertools::Itertools::into_group_map: each value is pushed, in
/// order, onto the vector of its key.
#[verifier::external_body]
fn into_group_map(pairs: Vec<(String, Lint)>) -> (r: HashMap<String, Vec<Lint>>)
    ensures
        r.deep_view() == grouped_pairs(pairs.deep_view()),
{
    itertools::Itertools::into_group_map(pairs.into_iter())
}

fn copy_string(s: &String) -> (r: String)
    ensures
        r@ == s@,
{
    s.clone()
}

impl Lint {
    /// A record with its name in lower case and its description unescaped
    /// and joined into one line.
    pub fn new(name: &str, group: &str, desc: &str, deprecation: Option<&str>, module: &str) -> (r: Self)
        ensures
            r@ == new_lint(name@, group@, desc@, opt_view(deprecation), module@),
    {
        let unescaped = unescape(desc);
        proof {
            reveal_strlit("");
        }
        let compiled = compile(LINE_CONTINUATION);
        let desc = match compiled {
            Ok(p) => {
                assert(regex_compiles(LINE_CONTINUATION@));
                assert(p@ == LINE_CONTINUATION@);
                let d = replace_all(&p, unescaped.as_str(), "");
                assert(""@ =~= Seq::<char>::empty());
                assert(d@ == regex_replaced_all(LINE_CONTINUATION@, unescaped@, seq![]));
                d
            },
            Err(_) => unescaped,
        };
        let deprecation = match deprecation {
            Some(d) => Some(String::from_str(d)),
            None => None,
        };
        Lint {
            name: lowercase(name),
            group: String::from_str(group),
            desc,
            deprecation,
            module: String::from_str(module),
        }
    }

    /// A record with the same content.
    pub fn duplicate(&self) -> (r: Self)
        ensures
            r@ == self@,
    {
        let deprecation = match &self.deprecation {
            Some(d) => Some(copy_string(d)),
            None => None,
        };
        Lint {
            name: copy_string(&self.name),
            group: copy_string(&self.group),
            desc: copy_string(&self.desc),
            deprecation,
            module: copy_string(&self.module),
        }
    }

    /// Returns all non-deprecated lints and non-internal lints
    pub fn usable_lints(lints: Vec<Self>) -> (r: Vec<Self>)
        ensures
            r.deep_view() == lints.deep_view().filter(|l: LintView| usable(l)),
    {
        let ghost all = lints.deep_view();
        let mut out: Vec<Self> = Vec::new();
        let mut i: usize = 0;
        while i < lints.len()
            invariant
                i <= lints@.len(),
                all == lints.deep_view(),
                out.deep_view() == all.subrange(0, i as int).filter(|l: LintView| usable(l)),
            decreases lints.len() - i,
        {
            proof {
                assert(all.subrange(0, i + 1) =~= all.subrange(0, i as int).push(all[i as int]));
                all.subrange(0, i as int).lemma_filter_push(all[i as int], |l: LintView| usable(l));
            }
            let l = &lints[i];
            if l.deprecation.is_none() && !l.is_internal() {
                let c = l.duplicate();
                out.push(c);
            }
            assert(out.deep_view() =~= all.subrange(0, i + 1).filter(|l: LintView| usable(l)));
            i = i + 1;
        }
        assert(all.subrange(0, lints@.len() as int) =~= all);
        out
    }

    /// Returns the lints in a HashMap, grouped by the different lint groups
    pub fn by_lint_group(lints: &[Self]) -> (r: HashMap<String, Vec<Self>>)
        ensures
            r.deep_view() == grouped(lints@.map_values(|l: Lint| l@)),
    {
        let ghost all = lints@.map_values(|l: Lint| l@);
        let mut pairs: Vec<(String, Lint)> = Vec::new();
        let mut i: usize = 0;
        while i < lints.len()
            invariant
                i <= lints@.len(),
                all == lints@.map_values(|l: Lint| l@),
                pairs.deep_view() == all.subrange(0, i as int).map_values(|l: LintView| keyed(l)),
            decreases lints.len() - i,
        {
            let l = &lints[i];
            let g = copy_string(&l.group);
            let c = l.duplicate();
            assert(c@ == all[i as int]);
            let ghost before = pairs.deep_view();
            pairs.push((g, c));
            assert(pairs.deep_view() =~= before.push(keyed(all[i as int])));
            assert(all.subrange(0, i + 1) =~= all.subrange(0, i as int).push(all[i as int]));
            assert(pairs.deep_view() =~= all.subrange(0, i + 1).map_values(|l: LintView| keyed(l)));
            i = i + 1;
        }
        assert(all.subrange(0, lints@.len() as int) =~= all);
        let r = into_group_map(pairs);
        proof {
            lemma_grouped_pairs(all);
        }
        r
    }

    pub fn is_internal(&self) -> (r: bool)
        ensures
            r == internal(self@),
    {
        starts_with(self.group.as_str(), INTERNAL_PREFIX)
    }
}

proof fn lemma_grouped_pairs(ls: Seq<LintView>)
    ensures
        grouped_pairs(ls.map_values(|l: LintView| keyed(l))) == grouped(ls),
    decreases ls.len(),
{
    let ps = ls.map_values(|l: LintView| keyed(l));
    assert forall|k: Seq<char>| #[trigger] grouped_pairs(ps).contains_key(k) == grouped(ls).contains_key(k) by {
        if grouped(ls).contains_key(k) {
            let i = choose|i: int| 0 <= i < ls.len() && ls[i].group == k;
            assert(ps[i].0 == k);
        }
    }
    assert forall|k: Seq<char>| grouped(ls).contains_key(k) implies #[trigger] grouped_pairs(ps)[k] == grouped(ls)[k] by {
        let i = choose|i: int| 0 <= i < ls.len() && ls[i].group == k;
        assert(ps[i].0 == k);
        assert(grouped_pairs(ps).contains_key(k));
        lemma_filter_map_pairs(ls, k);
    }
    assert(grouped_pairs(ps) =~= grouped(ls));
}

proof fn lemma_filter_map_pairs(ls: Seq<LintView>, k: Seq<char>)
    ensures
        values_of(ls.map_values(|l: LintView| keyed(l)), k) == in_group(ls, k),
    decreases ls.len(),
{
    let ps = ls.map_values(|l: LintView| keyed(l));
    if ls.len() == 0 {
        assert(ps =~= Seq::<(Seq<char>, LintView)>::empty());
        assert(ps.filter(key_is(k)) =~= Seq::<(Seq<char>, LintView)>::empty());
        assert(ls.filter(group_is(k)) =~= Seq::<LintView>::empty());
        assert(values_of(ps, k) =~= in_group(ls, k));
    } else {
        let front = ls.drop_last();
        lemma_filter_map_pairs(front, k);
        assert(ls =~= front.push(ls.last()));
        assert(ps =~= front.map_values(|l: LintView| keyed(l)).push(keyed(ls.last())));
        front.map_values(|l: LintView| keyed(l)).lemma_filter_push(
            keyed(ls.last()),
            key_is(k),
        );
        front.lemma_filter_push(ls.last(), group_is(k));
        let fp = front.map_values(|l: LintView| keyed(l)).filter(key_is(k));
        assert(fp.push(keyed(ls.last())).map_values(|p: (Seq<char>, LintView)| p.1) =~= fp.map_values(
            |p: (Seq<char>, LintView)| p.1,
        ).push(ls.last()));
        assert(values_of(front.map_values(|l: LintView| keyed(l)), k) == fp.map_values(
            |p: (Seq<char>, LintView)| p.1,
        ));
        if ls.last().group == k {
            assert(values_of(ps, k) == fp.map_values(|p: (Seq<char>, LintView)| p.1).push(ls.last()));
            assert(in_group(ls, k) == in_group(front, k).push(ls.last()));
        } else {
            assert(values_of(ps, k) == fp.map_values(|p: (Seq<char>, LintView)| p.1));
            assert(in_group(ls, k) == in_group(front, k));
        }
    }
}

/// Where no lint is deprecated or internal, every lint is usable.
pub proof fn lemma_usable_identity(ls: Seq<LintView>)
    requires
        forall|i: int| 0 <= i < ls.len() ==> #[trigger] ls[i].deprecation is None && !internal(ls[i]),
    ensures
        ls.filter(|l: LintView| usable(l)) == ls,
    decreases ls.len(),
{
    if ls.len() > 0 {
        let front = ls.drop_last();
        assert forall|i: int| 0 <= i < front.len() implies #[trigger] front[i].deprecation is None
            && !internal(front[i]) by {
            assert(front[i] == ls[i]);
        }
        lemma_usable_identity(front);
        assert(ls =~= front.push(ls.last()));
        front.lemma_filter_push(ls.last(), |l: LintView| usable(l));
        assert(usable(ls.last())) by {
            assert(ls[ls.len() - 1] == ls.last());
        }
    }
}

/// Every lint is found under its own group, which is a key of the grouping.
pub proof fn lemma_grouped_holds_each(ls: Seq<LintView>, i: int)
    requires
        0 <= i < ls.len(),
    ensures
        grouped(ls).contains_key(ls[i].group),
        grouped(ls)[ls[i].group].contains(ls[i]),
{
    assert(grouped(ls).contains_key(ls[i].group));
    ls.lemma_filter_contains(group_is(ls[i].group), i);
}

/// The groups hold nothing but lints of the input, each under its own group.
pub proof fn lemma_grouped_only_own(ls: Seq<LintView>, g: Seq<char>)
    requires
        grouped(ls).contains_key(g),
    ensures
        forall|j: int| 0 <= j < grouped(ls)[g].len() ==> #[trigger] grouped(ls)[g][j].group == g
            && ls.contains(grouped(ls)[g][j]),
{
    let f = ls.filter(group_is(g));
    assert forall|j: int| 0 <= j < f.len() implies #[trigger] f[j].group == g && ls.contains(f[j]) by {
        ls.lemma_filter_pred(group_is(g), j);
        assert(f.contains(f[j]));
        ls.lemma_filter_contains_rev(group_is(g), f[j]);
    }
}

/// The group names of `ls`, each once, in the order of their first lint.
pub open spec fn group_names(ls: Seq<LintView>) -> Seq<Seq<char>>
    decreases ls.len(),
{
    if ls.len() == 0 {
        seq![]
    } else {
        let front = group_names(ls.drop_last());
        if front.contains(ls.last().group) {
            front
        } else {
            front.push(ls.last().group)
        }
    }
}

/// The sum of the lengths of the values of `m` under `keys`.
pub open spec fn sizes_total(m: Map<Seq<char>, Seq<LintView>>, keys: Seq<Seq<char>>) -> int
    decreases keys.len(),
{
    if keys.len() == 0 {
        0
    } else {
        sizes_total(m, keys.drop_last()) + m[keys.last()].len()
    }
}

spec fn in_group_total(ls: Seq<LintView>, keys: Seq<Seq<char>>) -> int
    decreases keys.len(),
{
    if keys.len() == 0 {
        0
    } else {
        in_group_total(ls, keys.drop_last()) + in_group(ls, keys.last()).len()
    }
}

proof fn lemma_in_group_total_push(ls: Seq<LintView>, keys: Seq<Seq<char>>)
    requires
        ls.len() > 0,
        keys.no_duplicates(),
    ensures
        in_group_total(ls, keys) == in_group_total(ls.drop_last(), keys) + (if keys.contains(
            ls.last().group,
        ) {
            1int
        } else {
            0int
        }),
    decreases keys.len(),
{
    let front = ls.drop_last();
    assert(ls =~= front.push(ls.last()));
    if keys.len() > 0 {
        let k0 = keys.drop_last();
        let k = keys.last();
        assert(k0.no_duplicates());
        lemma_in_group_total_push(ls, k0);
        front.lemma_filter_push(ls.last(), group_is(k));
        assert(keys.contains(ls.last().group) <==> (k0.contains(ls.last().group) || k
            == ls.last().group)) by {
            if keys.contains(ls.last().group) {
                let j = choose|j: int| 0 <= j < keys.len() && keys[j] == ls.last().group;
                if j < keys.len() - 1 {
                    assert(k0[j] == keys[j]);
                }
            }
            if k0.contains(ls.last().group) {
                let j = choose|j: int| 0 <= j < k0.len() && k0[j] == ls.last().group;
                assert(keys[j] == k0[j]);
            }
        }
        if k0.contains(k) {
            let j = choose|j: int| 0 <= j < k0.len() && k0[j] == k;
            assert(keys[j] == keys[keys.len() - 1]);
        }
    }
}

proof fn lemma_group_names(ls: Seq<LintView>)
    ensures
        group_names(ls).no_duplicates(),
        forall|g: Seq<char>|
            #[trigger] group_names(ls).contains(g) <==> exists|i: int| 0 <= i < ls.len() && ls[i].group == g,
        in_group_total(ls, group_names(ls)) == ls.len(),
    decreases ls.len(),
{
    if ls.len() > 0 {
        let front = ls.drop_last();
        let l = ls.last();
        let kf = group_names(front);
        lemma_group_names(front);
        assert(ls =~= front.push(l));
        lemma_in_group_total_push(ls, kf);
        assert forall|g: Seq<char>|
            #[trigger] group_names(ls).contains(g) <==> exists|i: int| 0 <= i < ls.len() && ls[i].group == g by {
            if exists|i: int| 0 <= i < ls.len() && ls[i].group == g {
                let i = choose|i: int| 0 <= i < ls.len() && ls[i].group == g;
                if i < ls.len() - 1 {
                    assert(front[i] == ls[i]);
                    assert(kf.contains(g));
                    if !kf.contains(l.group) {
                        let j = choose|j: int| 0 <= j < kf.len() && kf[j] == g;
                        assert(kf.push(l.group)[j] == g);
                    }
                } else if !kf.contains(l.group) {
                    assert(kf.push(l.group)[kf.len() as int] == g);
                }
            }
            if group_names(ls).contains(g) {
                let j = choose|j: int| 0 <= j < group_names(ls).len() && group_names(ls)[j] == g;
                if j < kf.len() {
                    assert(kf[j] == g);
                    assert(kf.contains(g));
                    let i = choose|i: int| 0 <= i < front.len() && front[i].group == g;
                    assert(ls[i] == front[i]);
                } else {
                    assert(ls[ls.len() - 1] == l);
                }
            }
        }
        if !kf.contains(l.group) {
            let k2 = kf.push(l.group);
            assert(k2.drop_last() =~= kf);
            lemma_in_group_total_push(ls, kf);
            assert(front.all(|x: LintView| !group_is(l.group)(x))) by {
                assert forall|i: int| 0 <= i < front.len() implies !group_is(l.group)(#[trigger] front[i]) by {
                    if front[i].group == l.group {
                        assert(kf.contains(l.group));
                    }
                }
            }
            front.lemma_all_neg_filter_empty(group_is(l.group));
            front.lemma_filter_push(l, group_is(l.group));
            assert forall|i: int, j: int| 0 <= i < k2.len() && 0 <= j < k2.len() && i != j implies k2[i]
                != k2[j] by {
                if i == kf.len() {
                    assert(k2[j] == kf[j]);
                } else if j == kf.len() {
                    assert(k2[i] == kf[i]);
                } else {
                    assert(k2[i] == kf[i] && k2[j] == kf[j]);
                }
            }
        }
    }
}

proof fn lemma_sizes_total(ls: Seq<LintView>, keys: Seq<Seq<char>>)
    requires
        forall|j: int| 0 <= j < keys.len() ==> grouped(ls).contains_key(#[trigger] keys[j]),
    ensures
        sizes_total(grouped(ls), keys) == in_group_total(ls, keys),
    decreases keys.len(),
{
    if keys.len() > 0 {
        let k0 = keys.drop_last();
        assert forall|j: int| 0 <= j < k0.len() implies grouped(ls).contains_key(#[trigger] k0[j]) by {
            assert(k0[j] == keys[j]);
        }
        lemma_sizes_total(ls, k0);
        assert(grouped(ls).contains_key(keys[keys.len() - 1]));
    }
}

/// The groups are those of the lints, each named once, and their sizes add
/// up to the number of lints.
pub proof fn lemma_grouped_sizes(ls: Seq<LintView>)
    ensures
        group_names(ls).no_duplicates(),
        forall|g: Seq<char>| #[trigger] grouped(ls).contains_key(g) <==> group_names(ls).contains(g),
        sizes_total(grouped(ls), group_names(ls)) == ls.len(),
{
    lemma_group_names(ls);
    let ks = group_names(ls);
    assert forall|g: Seq<char>| #[trigger] grouped(ls).contains_key(g) <==> ks.contains(g) by {
        assert(ks.contains(g) <==> exists|i: int| 0 <= i < ls.len() && ls[i].group == g);
    }
    assert forall|j: int| 0 <= j < ks.len() implies grouped(ls).contains_key(#[trigger] ks[j]) by {
        assert(ks.contains(ks[j]));
    }
    lemma_sizes_total(ls, ks);
}

} // verus!
