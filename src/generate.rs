//! Text generated from lint records: the link list of the changelog and the
//! registration of removed lints.
use crate::lint::{internal, Lint, LintView, DOCS_LINK};
use crate::text::{lemma_lex_total, lemma_lex_trans, lex_le, string_le};
use vstd::multiset::Multiset;
use vstd::prelude::*;
use vstd::seq_lib::lemma_multiset_commutative;

verus! {

broadcast use vstd::multiset::group_multiset_axioms;

/// The names of the lints of `ls` that are not internal, in their order.
pub open spec fn public_names(ls: Seq<LintView>) -> Seq<Seq<char>>
    decreases ls.len(),
{
    if ls.len() == 0 {
        seq![]
    } else if internal(ls.last()) {
        public_names(ls.drop_last())
    } else {
        public_names(ls.drop_last()).push(ls.last().name)
    }
}

/// Each name comes before or equals the names after it.
pub open spec fn sorted(s: Seq<Seq<char>>) -> bool {
    forall|i: int, j: int| 0 <= i < j < s.len() ==> lex_le(#[trigger] s[i], #[trigger] s[j])
}

/// `x` put into `s` after the leading names that come before it or equal it.
pub open spec fn insert_sorted(s: Seq<Seq<char>>, x: Seq<char>) -> Seq<Seq<char>>
    decreases s.len(),
{
    if s.len() == 0 {
        seq![x]
    } else if lex_le(s[0], x) {
        seq![s[0]] + insert_sorted(s.drop_first(), x)
    } else {
        seq![x] + s
    }
}

/// The names of `s` in ascending order; equal names keep their order.
pub open spec fn sort_names(s: Seq<Seq<char>>) -> Seq<Seq<char>>
    decreases s.len(),
{
    if s.len() == 0 {
        seq![]
    } else {
        insert_sorted(sort_names(s.drop_last()), s.last())
    }
}

/// The reference link of a lint's name.
pub open spec fn link_line(name: Seq<char>) -> Seq<char> {
    "[`"@ + name + "`]: "@ + DOCS_LINK@ + "#"@ + name
}

/// The statement that registers a removed lint.
pub open spec fn removal_statement(name: Seq<char>, reason: Seq<char>) -> Seq<char> {
    "    store.register_removed(\n        \""@ + name + "\",\n        \""@ + reason + "\",\n    );"@
}

/// The removal statements of the deprecated lints of `ls`, in their order.
pub open spec fn removals(ls: Seq<LintView>) -> Seq<Seq<char>>
    decreases ls.len(),
{
    if ls.len() == 0 {
        seq![]
    } else {
        match ls.last().deprecation {
            Some(reason) => removals(ls.drop_last()).push(removal_statement(ls.last().name, reason)),
            None => removals(ls.drop_last()),
        }
    }
}

proof fn lemma_insert_sorted_at(s: Seq<Seq<char>>, x: Seq<char>, p: int)
    requires
        0 <= p <= s.len(),
        forall|j: int| 0 <= j < p ==> lex_le(#[trigger] s[j], x),
        p == s.len() || !lex_le(s[p], x),
    ensures
        insert_sorted(s, x) == s.insert(p, x),
    decreases s.len(),
{
    if s.len() == 0 {
        assert(s.insert(p, x) =~= seq![x]);
    } else if p == 0 {
        assert(s.insert(p, x) =~= seq![x] + s);
    } else {
        let t = s.drop_first();
        assert forall|j: int| 0 <= j < p - 1 implies lex_le(#[trigger] t[j], x) by {
            assert(t[j] == s[j + 1]);
        }
        lemma_insert_sorted_at(t, x, p - 1);
        assert(seq![s[0]] + t.insert(p - 1, x) =~= s.insert(p, x));
    }
}

proof fn lemma_multiset_cons(a: Seq<char>, t: Seq<Seq<char>>)
    ensures
        (seq![a] + t).to_multiset() == t.to_multiset().insert(a),
{
    lemma_multiset_commutative(seq![a], t);
    assert(seq![a] =~= Seq::<Seq<char>>::empty().push(a));
    Seq::<Seq<char>>::empty().to_multiset_ensures();
    assert(Seq::<Seq<char>>::empty().to_multiset() =~= Multiset::<Seq<char>>::empty());
    assert((seq![a] + t).to_multiset() =~= t.to_multiset().insert(a));
}

proof fn lemma_insert_sorted_sorted(s: Seq<Seq<char>>, x: Seq<char>)
    requires
        sorted(s),
    ensures
        sorted(insert_sorted(s, x)),
        insert_sorted(s, x).to_multiset() == s.to_multiset().insert(x),
    decreases s.len(),
{
    let r = insert_sorted(s, x);
    if s.len() == 0 {
        lemma_multiset_cons(x, s);
        assert(seq![x] + s =~= seq![x]);
    } else if lex_le(s[0], x) {
        let t = s.drop_first();
        assert(sorted(t)) by {
            assert forall|i: int, j: int| 0 <= i < j < t.len() implies lex_le(#[trigger] t[i], #[trigger] t[j]) by {
                assert(t[i] == s[i + 1] && t[j] == s[j + 1]);
            }
        }
        lemma_insert_sorted_sorted(t, x);
        let u = insert_sorted(t, x);
        assert forall|j: int| 0 <= j < u.len() implies lex_le(s[0], #[trigger] u[j]) by {
            assert(u.to_multiset().count(u[j]) > 0) by {
                u.to_multiset_ensures();
            }
            assert(t.to_multiset().insert(x).count(u[j]) > 0);
            if u[j] != x {
                t.to_multiset_ensures();
                let k = choose|k: int| 0 <= k < t.len() && t[k] == u[j];
                assert(s[k + 1] == t[k]);
            }
        }
        assert forall|i: int, j: int| 0 <= i < j < r.len() implies lex_le(#[trigger] r[i], #[trigger] r[j]) by {
            if i == 0 {
                assert(r[j] == u[j - 1]);
            } else {
                assert(r[i] == u[i - 1] && r[j] == u[j - 1]);
            }
        }
        assert(s =~= seq![s[0]] + t);
        lemma_multiset_cons(s[0], u);
        lemma_multiset_cons(s[0], t);
        assert(r.to_multiset() =~= s.to_multiset().insert(x));
    } else {
        lemma_lex_total(s[0], x);
        assert forall|i: int, j: int| 0 <= i < j < r.len() implies lex_le(#[trigger] r[i], #[trigger] r[j]) by {
            if i == 0 {
                if j > 1 {
                    lemma_lex_trans(x, s[0], s[j - 1]);
                }
            } else {
                assert(r[i] == s[i - 1] && r[j] == s[j - 1]);
            }
        }
        lemma_multiset_cons(x, s);
    }
}

/// Sorting names gives them in ascending order, each as often as before.
pub proof fn lemma_sort_names(s: Seq<Seq<char>>)
    ensures
        sorted(sort_names(s)),
        sort_names(s).to_multiset() == s.to_multiset(),
    decreases s.len(),
{
    if s.len() == 0 {
        assert(sort_names(s) =~= s);
    } else {
        lemma_sort_names(s.drop_last());
        lemma_insert_sorted_sorted(sort_names(s.drop_last()), s.last());
        assert(s =~= s.drop_last().push(s.last()));
        s.drop_last().to_multiset_ensures();
    }
}

/// The reference link line of the lint named `name`.
fn link_for(name: &String) -> (r: String)
    ensures
        r@ == link_line(name@),
{
    let mut line = String::from_str("[`");
    line.append(name.as_str());
    line.append("`]: ");
    line.append(DOCS_LINK);
    line.append("#");
    line.append(name.as_str());
    line
}

/// Generates the list of lint links at the bottom of the README
pub fn gen_changelog_lint_list(lints: Vec<Lint>) -> (r: Vec<String>)
    ensures
        r@.map_values(|s: String| s@) == sort_names(public_names(lints.deep_view())).map_values(
            |n: Seq<char>| link_line(n),
        ),
{
    let ghost all = lints.deep_view();
    let mut names: Vec<String> = Vec::new();
    let mut i: usize = 0;
    while i < lints.len()
        invariant
            i <= lints@.len(),
            all == lints.deep_view(),
            names@.map_values(|s: String| s@) == sort_names(public_names(all.subrange(0, i as int))),
        decreases lints.len() - i,
    {
        let ghost before = names@.map_values(|s: String| s@);
        assert(all.subrange(0, i + 1).drop_last() =~= all.subrange(0, i as int));
        assert(all.subrange(0, i + 1).last() == all[i as int]);
        let ghost prev = public_names(all.subrange(0, i as int));
        if !lints[i].is_internal() {
            assert(public_names(all.subrange(0, i + 1)) == prev.push(all[i as int].name));
            assert(prev.push(all[i as int].name).drop_last() =~= prev);
            let x = lints[i].name.clone();
            let mut p: usize = 0;
            while p < names.len() && string_le(names[p].as_str(), x.as_str())
                invariant
                    p <= names@.len(),
                    before == names@.map_values(|s: String| s@),
                    forall|j: int| 0 <= j < p ==> lex_le(#[trigger] before[j], x@),
                decreases names.len() - p,
            {
                p = p + 1;
            }
            proof {
                lemma_insert_sorted_at(before, x@, p as int);
            }
            names.insert(p, x);
            assert(names@.map_values(|s: String| s@) =~= before.insert(p as int, all[i as int].name));
        } else {
            assert(public_names(all.subrange(0, i + 1)) == prev);
        }
        i = i + 1;
    }
    assert(all.subrange(0, lints@.len() as int) =~= all);
    let mut out: Vec<String> = Vec::new();
    let mut k: usize = 0;
    while k < names.len()
        invariant
            k <= names@.len(),
            out@.len() == k,
            out@.map_values(|s: String| s@) == names@.subrange(0, k as int).map_values(
                |s: String| link_line(s@),
            ),
        decreases names.len() - k,
    {
        let line = link_for(&names[k]);
        let ghost old_out = out@;
        out.push(line);
        assert(out@[k as int]@ == link_line(names@[k as int]@));
        assert(names@.subrange(0, k + 1) =~= names@.subrange(0, k as int).push(names@[k as int]));
        assert(out@.map_values(|s: String| s@) =~= old_out.map_values(|s: String| s@).push(
            out@[k as int]@,
        ));
        assert(names@.subrange(0, k + 1).map_values(|s: String| link_line(s@)) =~= names@.subrange(
            0,
            k as int,
        ).map_values(|s: String| link_line(s@)).push(link_line(names@[k as int]@)));
        k = k + 1;
    }
    assert(out@.map_values(|s: String| s@) =~= sort_names(public_names(all)).map_values(
        |n: Seq<char>| link_line(n),
    ));
    out
}

/// The removal statement of a lint and its reason.
fn removal_for(name: &String, reason: &String) -> (r: String)
    ensures
        r@ == removal_statement(name@, reason@),
{
    let mut s = String::from_str("    store.register_removed(\n        \"");
    s.append(name.as_str());
    s.append("\",\n        \"");
    s.append(reason.as_str());
    s.append("\",\n    );");
    s
}

/// Generates the `register_removed` code in `./clippy_lints/src/lib.rs`.
pub fn gen_deprecated(lints: &[Lint]) -> (r: Vec<String>)
    ensures
        r@.map_values(|s: String| s@) == removals(lints@.map_values(|l: Lint| l@)),
{
    let ghost all = lints@.map_values(|l: Lint| l@);
    let mut out: Vec<String> = Vec::new();
    let mut i: usize = 0;
    while i < lints.len()
        invariant
            i <= lints@.len(),
            all == lints@.map_values(|l: Lint| l@),
            out@.map_values(|s: String| s@) == removals(all.subrange(0, i as int)),
        decreases lints.len() - i,
    {
        assert(all.subrange(0, i + 1).drop_last() =~= all.subrange(0, i as int));
        match &lints[i].deprecation {
            Some(reason) => {
                let s = removal_for(&lints[i].name, reason);
                out.push(s);
                assert(out@.map_values(|s: String| s@) =~= removals(all.subrange(0, i + 1)));
            },
            None => {},
        }
        i = i + 1;
    }
    assert(all.subrange(0, lints@.len() as int) =~= all);
    out
}

proof fn lemma_public_names_from(ls: Seq<LintView>, n: Seq<char>)
    requires
        public_names(ls).contains(n),
    ensures
        exists|i: int| 0 <= i < ls.len() && #[trigger] ls[i].name == n && !internal(ls[i]),
    decreases ls.len(),
{
    let front = ls.drop_last();
    if !internal(ls.last()) && n == ls.last().name {
        assert(ls[ls.len() - 1] == ls.last());
    } else {
        if !internal(ls.last()) {
            let k = choose|k: int| 0 <= k < public_names(ls).len() && public_names(ls)[k] == n;
            assert(public_names(front)[k] == n);
        }
        lemma_public_names_from(front, n);
        let i = choose|i: int| 0 <= i < front.len() && #[trigger] front[i].name == n && !internal(front[i]);
        assert(ls[i] == front[i]);
    }
}

/// The link list is in ascending order of names, and each of its lines is
/// the link of a lint of the input that is not internal.
pub proof fn lemma_changelog_sorted_public(ls: Seq<LintView>)
    ensures
        sorted(sort_names(public_names(ls))),
        forall|k: int|
            0 <= k < sort_names(public_names(ls)).len() ==> exists|i: int|
                0 <= i < ls.len() && #[trigger] ls[i].name == #[trigger] sort_names(public_names(ls))[k]
                    && !internal(ls[i]),
{
    let ns = sort_names(public_names(ls));
    lemma_sort_names(public_names(ls));
    assert forall|k: int| 0 <= k < ns.len() implies exists|i: int|
        0 <= i < ls.len() && #[trigger] ls[i].name == #[trigger] ns[k] && !internal(ls[i]) by {
        ns.to_multiset_ensures();
        public_names(ls).to_multiset_ensures();
        assert(ns.contains(ns[k]));
        assert(ns.to_multiset().count(ns[k]) > 0);
        assert(public_names(ls).to_multiset().count(ns[k]) > 0);
        assert(public_names(ls).contains(ns[k]));
        lemma_public_names_from(ls, ns[k]);
    }
}

/// There is one removal statement for each deprecated lint.
pub proof fn lemma_removals_count(ls: Seq<LintView>)
    ensures
        removals(ls).len() == ls.filter(|l: LintView| l.deprecation is Some).len(),
    decreases ls.len(),
{
    if ls.len() > 0 {
        lemma_removals_count(ls.drop_last());
        assert(ls =~= ls.drop_last().push(ls.last()));
        ls.drop_last().lemma_filter_push(ls.last(), |l: LintView| l.deprecation is Some);
    }
}

} // verus!
