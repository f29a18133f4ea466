//! The ranker: sorts each strategy's candidates, concatenates them in the
//! order consecutive, fuzzy, anywhere, leaves out the current directory and,
//! on request, paths that no longer exist, and falls back to `"."`.
use crate::database::{
    unique_keys, entries_view, entry_view, kept, lemma_kept_subset, path_exists, Database, Entry, EntryView,
};
use crate::matching::{
    anywhere_pred, consecutive_pred, fuzzy_pred, lemma_select_contains, match_anywhere,
    match_consecutive, match_fuzzy, needles_view, select, threshold_or_default,
};
use crate::text::{
    chars_less, chars_of, has_upper, is_upper, lemma_str_lt_total, lemma_str_lt_transitive, str_lt,
};
use vstd::prelude::*;
use vstd::string::StringExecFns;

verus! {

/// `a` is listed before `b`: a greater weight first, and on equal weights the
/// lexicographically greater path first.
pub open spec fn ranks_before(a: EntryView, b: EntryView) -> bool {
    a.1 > b.1 || (a.1 == b.1 && str_lt(b.0, a.0))
}

pub open spec fn sorted_desc(s: Seq<EntryView>) -> bool {
    forall|i: int, j: int| 0 <= i < j < s.len() ==> ranks_before(#[trigger] s[i], #[trigger] s[j])
}

/// `r` lists the entries of `s` in rank order, each once.
pub open spec fn sorted_as(r: Seq<EntryView>, s: Seq<EntryView>) -> bool {
    sorted_desc(r) && forall|e: EntryView| r.contains(e) <==> s.contains(e)
}

/// The result that stands for the current directory.
pub open spec fn sentinel() -> EntryView {
    (seq!['.'], 0u32)
}

pub open spec fn with_fallback(s: Seq<EntryView>) -> Seq<EntryView> {
    if s.len() == 0 {
        seq![sentinel()]
    } else {
        s
    }
}

pub open spec fn away_from(cwd: Seq<char>) -> spec_fn(Seq<char>) -> bool {
    |p: Seq<char>| p != cwd
}

/// Case is ignored unless some needle holds an ASCII uppercase letter.
pub open spec fn smart_ignore_case(needles: Seq<Seq<char>>) -> bool {
    !exists|j: int, k: int|
        0 <= j < needles.len() && 0 <= k < needles[j].len() && is_upper(#[trigger] needles[j][k])
}

/// The query is empty, or its first needle is: it stands for the current
/// directory.
pub open spec fn is_blank_query(needles: Seq<Seq<char>>) -> bool {
    needles.len() == 0 || needles[0].len() == 0
}

/// Some entry of `s` has the path `p`.
pub open spec fn has_path(s: Seq<EntryView>, p: Seq<char>) -> bool {
    exists|j: int| 0 <= j < s.len() && (#[trigger] s[j]).0 == p
}

/// The entries of `s` whose path no earlier entry has, in order.
pub open spec fn dedup(s: Seq<EntryView>) -> Seq<EntryView>
    decreases s.len(),
{
    if s.len() == 0 {
        Seq::empty()
    } else if has_path(s.drop_last(), s.last().0) {
        dedup(s.drop_last())
    } else {
        dedup(s.drop_last()).push(s.last())
    }
}

/// A path occurs in the deduplicated list exactly when it occurs in the
/// list; every entry of it is an entry of the list; no two share a path.
pub proof fn lemma_dedup(s: Seq<EntryView>)
    ensures
        forall|p: Seq<char>| has_path(dedup(s), p) <==> has_path(s, p),
        forall|i: int| 0 <= i < dedup(s).len() ==> s.contains(#[trigger] dedup(s)[i]),
        unique_keys(dedup(s)),
    decreases s.len(),
{
    if s.len() > 0 {
        let s0 = s.drop_last();
        let r0 = dedup(s0);
        lemma_dedup(s0);
        let r = dedup(s);
        assert forall|p: Seq<char>| has_path(r, p) <==> has_path(s, p) by {
            if has_path(r, p) {
                let j = choose|j: int| 0 <= j < r.len() && (#[trigger] r[j]).0 == p;
                if j < r0.len() {
                    assert(r[j] == r0[j]);
                    assert(has_path(r0, p));
                    let k = choose|k: int| 0 <= k < s0.len() && (#[trigger] s0[k]).0 == p;
                    assert(s[k] == s0[k]);
                } else {
                    assert(s[s.len() - 1].0 == p);
                }
            }
            if has_path(s, p) {
                let k = choose|k: int| 0 <= k < s.len() && (#[trigger] s[k]).0 == p;
                if k < s.len() - 1 {
                    assert(s0[k] == s[k]);
                    assert(has_path(s0, p));
                    let j = choose|j: int| 0 <= j < r0.len() && (#[trigger] r0[j]).0 == p;
                    if !has_path(s0, s.last().0) {
                        assert(r[j] == r0[j]);
                    }
                } else if has_path(s0, s.last().0) {
                    assert(has_path(r0, p));
                } else {
                    assert(r[r.len() - 1].0 == p);
                }
            }
        }
        assert forall|i: int| 0 <= i < r.len() implies s.contains(#[trigger] r[i]) by {
            if i < r0.len() {
                assert(r[i] == r0[i]);
                assert(s0.contains(r0[i]));
                let k = choose|k: int| 0 <= k < s0.len() && s0[k] == r0[i];
                assert(s[k] == s0[k]);
            } else {
                assert(r[i] == s[s.len() - 1]);
            }
        }
        if !has_path(s0, s.last().0) {
            assert forall|i: int, j: int| 0 <= i < j < r.len() implies #[trigger] r[i].0
                != #[trigger] r[j].0 by {
                if j == r.len() - 1 {
                    assert(r[i] == r0[i]);
                    if r0[i].0 == s.last().0 {
                        assert(has_path(r0, s.last().0));
                    }
                } else {
                    assert(r[i] == r0[i] && r[j] == r0[j]);
                }
            }
        }
    }
}

/// The entries of `s` whose path neither `seen` nor an earlier entry of `s`
/// has, in order.
pub open spec fn dedup_after(seen: Seq<EntryView>, s: Seq<EntryView>) -> Seq<EntryView>
    decreases s.len(),
{
    if s.len() == 0 {
        Seq::empty()
    } else if has_path(seen + s.drop_last(), s.last().0) {
        dedup_after(seen, s.drop_last())
    } else {
        dedup_after(seen, s.drop_last()).push(s.last())
    }
}

/// Deduplicating `s1 + s2` keeps the deduplicated `s1` in front; what
/// follows are entries of `s2`, in rank order where `s2` is.
pub proof fn lemma_dedup_append(s1: Seq<EntryView>, s2: Seq<EntryView>)
    ensures
        dedup(s1 + s2) == dedup(s1) + dedup_after(s1, s2),
        forall|i: int|
            0 <= i < dedup_after(s1, s2).len() ==> s2.contains(#[trigger] dedup_after(s1, s2)[i]),
        sorted_desc(s2) ==> sorted_desc(dedup_after(s1, s2)),
    decreases s2.len(),
{
    let t = dedup_after(s1, s2);
    if s2.len() == 0 {
        assert(s1 + s2 =~= s1);
        assert(dedup(s1) + t =~= dedup(s1));
    } else {
        let s20 = s2.drop_last();
        lemma_dedup_append(s1, s20);
        let t0 = dedup_after(s1, s20);
        assert((s1 + s2).drop_last() =~= s1 + s20);
        assert((s1 + s2).last() == s2.last());
        let x = s2.last();
        if has_path(s1 + s20, x.0) {
            assert(t == t0);
        } else {
            assert(t == t0.push(x));
            assert(dedup(s1 + s2) =~= dedup(s1) + t);
        }
        assert forall|i: int| 0 <= i < t.len() implies s2.contains(#[trigger] t[i]) by {
            if i < t0.len() {
                assert(t[i] == t0[i]);
                assert(s20.contains(t0[i]));
                let k = choose|k: int| 0 <= k < s20.len() && s20[k] == t0[i];
                assert(s2[k] == s20[k]);
            } else {
                assert(s2[s2.len() - 1] == t[i]);
            }
        }
        if sorted_desc(s2) {
            assert forall|i: int, j: int| 0 <= i < j < s20.len() implies ranks_before(
                #[trigger] s20[i],
                #[trigger] s20[j],
            ) by {
                assert(s20[i] == s2[i] && s20[j] == s2[j]);
            }
            assert(sorted_desc(t0));
            assert forall|i: int, j: int| 0 <= i < j < t.len() implies ranks_before(
                #[trigger] t[i],
                #[trigger] t[j],
            ) by {
                if j == t0.len() {
                    assert(t[i] == t0[i]);
                    assert(s20.contains(t0[i]));
                    let k = choose|k: int| 0 <= k < s20.len() && s20[k] == t0[i];
                    assert(s2[k] == t0[i]);
                    assert(s2[s2.len() - 1] == x);
                    assert(t[j] == x);
                } else {
                    assert(t[i] == t0[i] && t[j] == t0[j]);
                }
            }
        }
    }
}

/// `ranked` is the three strategies' candidates, each list in rank order,
/// concatenated in priority order, without the current directory, each path
/// kept only where it first occurs.
pub open spec fn ranking_from(
    ranked: Seq<EntryView>,
    a: Seq<EntryView>,
    b: Seq<EntryView>,
    c: Seq<EntryView>,
    db: Seq<EntryView>,
    needles: Seq<Seq<char>>,
    cwd: Seq<char>,
    threshold: nat,
) -> bool {
    let ic = smart_ignore_case(needles);
    &&& sorted_as(a, select(db, consecutive_pred(needles, ic)))
    &&& sorted_as(b, select(db, fuzzy_pred(needles, ic, threshold)))
    &&& sorted_as(c, select(db, anywhere_pred(needles, ic)))
    &&& ranked == dedup(
        select(a, away_from(cwd)) + select(b, away_from(cwd)) + select(c, away_from(cwd)),
    )
}

pub open spec fn is_ranking(
    ranked: Seq<EntryView>,
    db: Seq<EntryView>,
    needles: Seq<Seq<char>>,
    cwd: Seq<char>,
    threshold: nat,
) -> bool {
    exists|a: Seq<EntryView>, b: Seq<EntryView>, c: Seq<EntryView>|
        ranking_from(ranked, a, b, c, db, needles, cwd, threshold)
}

pub proof fn lemma_ranks_before_transitive(a: EntryView, b: EntryView, c: EntryView)
    requires
        ranks_before(a, b),
        ranks_before(b, c),
    ensures
        ranks_before(a, c),
{
    if a.1 == b.1 && b.1 == c.1 {
        lemma_str_lt_transitive(c.0, b.0, a.0);
    }
}

pub proof fn lemma_ranks_before_total(a: EntryView, b: EntryView)
    requires
        a != b,
    ensures
        ranks_before(a, b) || ranks_before(b, a),
{
    if a.1 == b.1 && a.0 != b.0 {
        lemma_str_lt_total(a.0, b.0);
    }
}

/// A selection keeps the order of what it selects from.
pub proof fn lemma_select_sorted(s: Seq<EntryView>, p: spec_fn(Seq<char>) -> bool)
    requires
        sorted_desc(s),
    ensures
        sorted_desc(select(s, p)),
    decreases s.len(),
{
    if s.len() > 0 {
        let s0 = s.drop_last();
        assert(sorted_desc(s0));
        lemma_select_sorted(s0, p);
        if p(s.last().0) {
            let r0 = select(s0, p);
            let r = r0.push(s.last());
            assert forall|i: int, j: int| 0 <= i < j < r.len() implies ranks_before(
                #[trigger] r[i],
                #[trigger] r[j],
            ) by {
                if j == r.len() - 1 {
                    lemma_select_contains(s0, p, r0[i]);
                    assert(r0.contains(r0[i]));
                    let k = choose|k: int| 0 <= k < s0.len() && s0[k] == r0[i];
                    assert(s[k] == s0[k]);
                } else {
                    assert(r[i] == r0[i] && r[j] == r0[j]);
                }
            }
        }
    }
}

/// An element of a selection is in its source and qualifies.
pub proof fn lemma_select_elem(s: Seq<EntryView>, p: spec_fn(Seq<char>) -> bool, i: int)
    requires
        0 <= i < select(s, p).len(),
    ensures
        s.contains(select(s, p)[i]),
        p(select(s, p)[i].0),
{
    lemma_select_contains(s, p, select(s, p)[i]);
    assert(select(s, p).contains(select(s, p)[i]));
}

/// Every element of a ranked list is an element of the store that its
/// strategy accepts.
proof fn lemma_sorted_part_elem(
    x: Seq<EntryView>,
    db: Seq<EntryView>,
    q: spec_fn(Seq<char>) -> bool,
    cwd: Seq<char>,
    i: int,
)
    requires
        sorted_as(x, select(db, q)),
        0 <= i < select(x, away_from(cwd)).len(),
    ensures
        q(select(x, away_from(cwd))[i].0),
        db.contains(select(x, away_from(cwd))[i]),
        select(x, away_from(cwd))[i].0 != cwd,
{
    let e = select(x, away_from(cwd))[i];
    lemma_select_elem(x, away_from(cwd), i);
    assert(select(db, q).contains(e));
    lemma_select_contains(db, q, e);
}

/// The three ranked lists of a ranking without the current directory, and
/// how the ranking is made of them.
proof fn lemma_ranking_parts(
    ranked: Seq<EntryView>,
    a: Seq<EntryView>,
    b: Seq<EntryView>,
    c: Seq<EntryView>,
    db: Seq<EntryView>,
    needles: Seq<Seq<char>>,
    cwd: Seq<char>,
    threshold: nat,
)
    requires
        ranking_from(ranked, a, b, c, db, needles, cwd, threshold),
    ensures
        ({
            let sa = select(a, away_from(cwd));
            let sb = select(b, away_from(cwd));
            let sc = select(c, away_from(cwd));
            let d0 = dedup_after(Seq::empty(), sa);
            let d1 = dedup_after(sa, sb);
            let d2 = dedup_after(sa + sb, sc);
            &&& ranked == d0 + d1 + d2
            &&& sorted_desc(d0) && sorted_desc(d1) && sorted_desc(d2)
            &&& forall|i: int| 0 <= i < d0.len() ==> sa.contains(#[trigger] d0[i])
            &&& forall|i: int| 0 <= i < d1.len() ==> sb.contains(#[trigger] d1[i])
            &&& forall|i: int| 0 <= i < d2.len() ==> sc.contains(#[trigger] d2[i])
        }),
{
    let sa = select(a, away_from(cwd));
    let sb = select(b, away_from(cwd));
    let sc = select(c, away_from(cwd));
    lemma_select_sorted(a, away_from(cwd));
    lemma_select_sorted(b, away_from(cwd));
    lemma_select_sorted(c, away_from(cwd));
    lemma_dedup_append(Seq::empty(), sa);
    lemma_dedup_append(sa, sb);
    lemma_dedup_append(sa + sb, sc);
    assert(Seq::<EntryView>::empty() + sa =~= sa);
    assert(dedup(Seq::<EntryView>::empty()) =~= Seq::<EntryView>::empty());
    assert(Seq::<EntryView>::empty() + dedup_after(Seq::empty(), sa) =~= dedup_after(
        Seq::empty(),
        sa,
    ));
}

/// An entry of one of the ranked lists without the current directory
/// satisfies its strategy and is not the current directory.
proof fn lemma_part_member(
    x: Seq<EntryView>,
    db: Seq<EntryView>,
    q: spec_fn(Seq<char>) -> bool,
    cwd: Seq<char>,
    e: EntryView,
)
    requires
        sorted_as(x, select(db, q)),
        select(x, away_from(cwd)).contains(e),
    ensures
        q(e.0),
        e.0 != cwd,
{
    let i = choose|i: int|
        0 <= i < select(x, away_from(cwd)).len() && select(x, away_from(cwd))[i] == e;
    lemma_sorted_part_elem(x, db, q, cwd, i);
}

/// A query that no strategy accepts on any stored path other than the
/// current directory, an empty store among them, returns the current
/// directory sentinel alone, with weight zero; so does one whose every
/// ranked path was not found on disk.
pub proof fn lemma_no_match_gives_current_dir(
    r: Seq<EntryView>,
    ranked: Seq<EntryView>,
    db: Seq<EntryView>,
    needles: Seq<Seq<char>>,
    cwd: Seq<char>,
    threshold: nat,
    check_existence: bool,
)
    requires
        is_ranking(ranked, db, needles, cwd, threshold),
        query_outcome(r, ranked, check_existence),
        forall|i: int|
            0 <= i < db.len() ==> {
                let ic = smart_ignore_case(needles);
                ||| (#[trigger] db[i]).0 == cwd
                ||| {
                    &&& !consecutive_pred(needles, ic)(db[i].0)
                    &&& !fuzzy_pred(needles, ic, threshold)(db[i].0)
                    &&& !anywhere_pred(needles, ic)(db[i].0)
                }
            },
    ensures
        r == seq![sentinel()],
{
    let ic = smart_ignore_case(needles);
    let (a, b, c) = choose|a: Seq<EntryView>, b: Seq<EntryView>, c: Seq<EntryView>|
        ranking_from(ranked, a, b, c, db, needles, cwd, threshold);
    lemma_no_part_member(a, db, consecutive_pred(needles, ic), cwd, needles, threshold);
    lemma_no_part_member(b, db, fuzzy_pred(needles, ic, threshold), cwd, needles, threshold);
    lemma_no_part_member(c, db, anywhere_pred(needles, ic), cwd, needles, threshold);
    let all = select(a, away_from(cwd)) + select(b, away_from(cwd)) + select(c, away_from(cwd));
    assert(all.len() == 0);
    assert(ranked.len() == 0);
    if check_existence {
        let keep = choose|keep: Seq<bool>|
            keep.len() == ranked.len() && r == with_fallback(#[trigger] kept(ranked, keep));
        assert(kept(ranked, keep).len() == 0);
    }
}

/// A ranked list without the current directory is empty when every stored
/// path is the current directory or fails the strategy.
proof fn lemma_no_part_member(
    x: Seq<EntryView>,
    db: Seq<EntryView>,
    q: spec_fn(Seq<char>) -> bool,
    cwd: Seq<char>,
    needles: Seq<Seq<char>>,
    threshold: nat,
)
    requires
        sorted_as(x, select(db, q)),
        q == consecutive_pred(needles, smart_ignore_case(needles)) || q == fuzzy_pred(
            needles,
            smart_ignore_case(needles),
            threshold,
        ) || q == anywhere_pred(needles, smart_ignore_case(needles)),
        forall|i: int|
            0 <= i < db.len() ==> {
                let ic = smart_ignore_case(needles);
                ||| (#[trigger] db[i]).0 == cwd
                ||| {
                    &&& !consecutive_pred(needles, ic)(db[i].0)
                    &&& !fuzzy_pred(needles, ic, threshold)(db[i].0)
                    &&& !anywhere_pred(needles, ic)(db[i].0)
                }
            },
    ensures
        select(x, away_from(cwd)).len() == 0,
{
    if select(x, away_from(cwd)).len() > 0 {
        lemma_sorted_part_elem(x, db, q, cwd, 0);
        let e = select(x, away_from(cwd))[0];
        let i = choose|i: int| 0 <= i < db.len() && db[i] == e;
        assert(db[i].0 == e.0);
    }
}

/// Where no ranked path was found on disk, the query returns the current
/// directory sentinel alone.
pub proof fn lemma_nothing_found_gives_current_dir(ranked: Seq<EntryView>, keep: Seq<bool>)
    requires
        keep.len() == ranked.len(),
        forall|k: int| 0 <= k < keep.len() ==> !#[trigger] keep[k],
    ensures
        with_fallback(kept(ranked, keep)) == seq![sentinel()],
    decreases ranked.len(),
{
    if ranked.len() > 0 {
        lemma_nothing_found_gives_current_dir(ranked.drop_last(), keep.drop_last());
        assert(!keep[keep.len() - 1]);
    }
}

/// No path occurs twice among the results of a query.
pub proof fn lemma_results_distinct(
    r: Seq<EntryView>,
    ranked: Seq<EntryView>,
    db: Seq<EntryView>,
    needles: Seq<Seq<char>>,
    cwd: Seq<char>,
    threshold: nat,
    check_existence: bool,
)
    requires
        is_ranking(ranked, db, needles, cwd, threshold),
        query_outcome(r, ranked, check_existence),
    ensures
        forall|i: int, j: int| 0 <= i < j < r.len() ==> #[trigger] r[i].0 != #[trigger] r[j].0,
{
    let (a, b, c) = choose|a: Seq<EntryView>, b: Seq<EntryView>, c: Seq<EntryView>|
        ranking_from(ranked, a, b, c, db, needles, cwd, threshold);
    let all = select(a, away_from(cwd)) + select(b, away_from(cwd)) + select(c, away_from(cwd));
    lemma_dedup(all);
    assert(unique_keys(ranked));
    if check_existence {
        let keep = choose|keep: Seq<bool>|
            keep.len() == ranked.len() && r == with_fallback(#[trigger] kept(ranked, keep));
        crate::database::lemma_kept_lookup(ranked, keep, Seq::empty());
    }
}

/// The current directory is never among the results of a query, even
/// where it is stored and matches.
pub proof fn lemma_current_dir_excluded(
    r: Seq<EntryView>,
    ranked: Seq<EntryView>,
    db: Seq<EntryView>,
    needles: Seq<Seq<char>>,
    cwd: Seq<char>,
    threshold: nat,
    check_existence: bool,
)
    requires
        is_ranking(ranked, db, needles, cwd, threshold),
        query_outcome(r, ranked, check_existence),
        cwd != seq!['.'],
    ensures
        forall|i: int| 0 <= i < r.len() ==> (#[trigger] r[i]).0 != cwd,
{
    let ic = smart_ignore_case(needles);
    let (a, b, c) = choose|a: Seq<EntryView>, b: Seq<EntryView>, c: Seq<EntryView>|
        ranking_from(ranked, a, b, c, db, needles, cwd, threshold);
    lemma_ranking_parts(ranked, a, b, c, db, needles, cwd, threshold);
    let sa = select(a, away_from(cwd));
    let sb = select(b, away_from(cwd));
    let sc = select(c, away_from(cwd));
    let d0 = dedup_after(Seq::empty(), sa);
    let d1 = dedup_after(sa, sb);
    let d2 = dedup_after(sa + sb, sc);
    assert forall|i: int| 0 <= i < ranked.len() implies (#[trigger] ranked[i]).0 != cwd by {
        if i < d0.len() {
            assert(ranked[i] == d0[i]);
            lemma_part_member(a, db, consecutive_pred(needles, ic), cwd, d0[i]);
        } else if i < d0.len() + d1.len() {
            assert(ranked[i] == d1[i - d0.len()]);
            lemma_part_member(b, db, fuzzy_pred(needles, ic, threshold), cwd, d1[i - d0.len()]);
        } else {
            let k = i - d0.len() - d1.len();
            assert(ranked[i] == d2[k]);
            lemma_part_member(c, db, anywhere_pred(needles, ic), cwd, d2[k]);
        }
    }
    if check_existence {
        let keep = choose|keep: Seq<bool>|
            keep.len() == ranked.len() && r == with_fallback(#[trigger] kept(ranked, keep));
        lemma_kept_subset(ranked, keep);
        assert forall|i: int| 0 <= i < kept(ranked, keep).len() implies (#[trigger] kept(
            ranked,
            keep,
        )[i]).0 != cwd by {
            assert(ranked.contains(kept(ranked, keep)[i]));
        }
    }
}

/// Strategy priority dominates weight: the results of a query fall into
/// three blocks, the consecutive matches, then the fuzzy matches, then the
/// matches anywhere; each block is in rank order (weight descending, and on
/// equal weights the greater path first).
pub proof fn lemma_priority_blocks(
    ranked: Seq<EntryView>,
    db: Seq<EntryView>,
    needles: Seq<Seq<char>>,
    cwd: Seq<char>,
    threshold: nat,
)
    requires
        is_ranking(ranked, db, needles, cwd, threshold),
    ensures
        exists|n1: int, n2: int|
            {
                let ic = smart_ignore_case(needles);
                &&& 0 <= n1 <= n2 <= ranked.len()
                &&& sorted_desc(#[trigger] ranked.subrange(0, n1))
                &&& sorted_desc(#[trigger] ranked.subrange(n1, n2))
                &&& sorted_desc(ranked.subrange(n2, ranked.len() as int))
                &&& forall|i: int| 0 <= i < n1 ==> consecutive_pred(needles, ic)(#[trigger] ranked[i].0)
                &&& forall|i: int|
                    n1 <= i < n2 ==> fuzzy_pred(needles, ic, threshold)(#[trigger] ranked[i].0)
                &&& forall|i: int|
                    n2 <= i < ranked.len() ==> anywhere_pred(needles, ic)(#[trigger] ranked[i].0)
            },
{
    let ic = smart_ignore_case(needles);
    let (a, b, c) = choose|a: Seq<EntryView>, b: Seq<EntryView>, c: Seq<EntryView>|
        ranking_from(ranked, a, b, c, db, needles, cwd, threshold);
    lemma_ranking_parts(ranked, a, b, c, db, needles, cwd, threshold);
    let sa = select(a, away_from(cwd));
    let sb = select(b, away_from(cwd));
    let sc = select(c, away_from(cwd));
    let d0 = dedup_after(Seq::empty(), sa);
    let d1 = dedup_after(sa, sb);
    let d2 = dedup_after(sa + sb, sc);
    let n1 = d0.len() as int;
    let n2 = n1 + d1.len();
    assert(ranked.subrange(0, n1) =~= d0);
    assert(ranked.subrange(n1, n2) =~= d1);
    assert(ranked.subrange(n2, ranked.len() as int) =~= d2);
    assert forall|i: int| 0 <= i < n1 implies consecutive_pred(needles, ic)(
        #[trigger] ranked[i].0,
    ) by {
        assert(ranked[i] == d0[i]);
        lemma_part_member(a, db, consecutive_pred(needles, ic), cwd, d0[i]);
    }
    assert forall|i: int| n1 <= i < n2 implies fuzzy_pred(needles, ic, threshold)(
        #[trigger] ranked[i].0,
    ) by {
        assert(ranked[i] == d1[i - n1]);
        lemma_part_member(b, db, fuzzy_pred(needles, ic, threshold), cwd, d1[i - n1]);
    }
    assert forall|i: int| n2 <= i < ranked.len() implies anywhere_pred(needles, ic)(
        #[trigger] ranked[i].0,
    ) by {
        assert(ranked[i] == d2[i - n2]);
        lemma_part_member(c, db, anywhere_pred(needles, ic), cwd, d2[i - n2]);
    }
    assert(sorted_desc(ranked.subrange(0, n1)) && sorted_desc(ranked.subrange(n1, n2)));
}

/// Whether entry `a` is listed before entry `b`.
fn entry_before(a: &Entry, b: &Entry) -> (r: bool)
    ensures
        r == ranks_before(entry_view(*a), entry_view(*b)),
{
    if a.1 != b.1 {
        a.1 > b.1
    } else {
        let pa = chars_of(a.0.as_str());
        let pb = chars_of(b.0.as_str());
        chars_less(&pb, &pa)
    }
}

/// The candidates in rank order, each once.
pub fn sort_candidates(v: &Vec<Entry>) -> (r: Vec<Entry>)
    ensures
        sorted_as(entries_view(r@), entries_view(v@)),
{
    let ghost vv = entries_view(v@);
    let mut r: Vec<Entry> = Vec::new();
    let mut i: usize = 0;
    while i < v.len()
        invariant
            i <= v@.len(),
            vv == entries_view(v@),
            sorted_desc(entries_view(r@)),
            forall|e: EntryView|
                entries_view(r@).contains(e) <==> vv.take(i as int).contains(e),
        decreases v.len() - i,
    {
        let x = &v[i];
        let ghost xv = entry_view(*x);
        let ghost rv = entries_view(r@);
        let ghost t0 = vv.take(i as int);
        let ghost t1 = vv.take(i + 1);
        let mut k: usize = 0;
        while k < r.len() && entry_before(&r[k], x)
            invariant
                k <= r@.len(),
                rv == entries_view(r@),
                xv == entry_view(*x),
                forall|m: int| 0 <= m < k ==> ranks_before(#[trigger] rv[m], xv),
            decreases r.len() - k,
        {
            k += 1;
        }
        proof {
            assert(t1 =~= t0.push(xv));
            assert(vv[i as int] == xv);
        }
        let same = k < r.len() && r[k].1 == x.1 && r[k].0 == x.0;
        if same {
            proof {
                assert(rv[k as int] == xv);
                assert forall|e: EntryView| rv.contains(e) <==> t1.contains(e) by {
                    if e == xv {
                        assert(rv.contains(e));
                        assert(t1[i as int] == xv);
                    }
                    if t1.contains(e) && e != xv {
                        let q = choose|q: int| 0 <= q < t1.len() && t1[q] == e;
                        assert(q < i);
                        assert(t0[q] == e);
                    }
                    if rv.contains(e) {
                        assert(t0.contains(e));
                        let q = choose|q: int| 0 <= q < t0.len() && t0[q] == e;
                        assert(t1[q] == e);
                    }
                }
            }
        } else {
            r.insert(k, (x.0.clone(), x.1));
            proof {
                let nv = entries_view(r@);
                assert(nv =~= rv.insert(k as int, xv));
                rv.insert_ensures(k as int, xv);
                if k < rv.len() {
                    assert(!ranks_before(rv[k as int], xv));
                    assert(rv[k as int] != xv);
                    lemma_ranks_before_total(rv[k as int], xv);
                }
                assert forall|a: int, b: int| 0 <= a < b < nv.len() implies ranks_before(
                    #[trigger] nv[a],
                    #[trigger] nv[b],
                ) by {
                    if b == k {
                        assert(nv[a] == rv[a]);
                    } else if a == k {
                        assert(nv[b] == rv[b - 1]);
                        if b - 1 > k {
                            assert(ranks_before(rv[k as int], rv[b - 1]));
                            lemma_ranks_before_transitive(xv, rv[k as int], rv[b - 1]);
                        }
                    } else if a < k && b < k {
                        assert(nv[a] == rv[a] && nv[b] == rv[b]);
                    } else if a < k {
                        assert(nv[a] == rv[a] && nv[b] == rv[b - 1]);
                    } else {
                        assert(nv[a] == rv[a - 1] && nv[b] == rv[b - 1]);
                    }
                }
                assert forall|e: EntryView| nv.contains(e) <==> t1.contains(e) by {
                    if nv.contains(e) {
                        let q = choose|q: int| 0 <= q < nv.len() && nv[q] == e;
                        if q < k {
                            assert(rv[q] == e);
                        } else if q > k {
                            assert(rv[q - 1] == e);
                        }
                        if e != xv {
                            assert(rv.contains(e));
                            let q2 = choose|q2: int|
                                0 <= q2 < t0.len() && t0[q2] == e;
                            assert(t1[q2] == e);
                        } else {
                            assert(t1[i as int] == xv);
                        }
                    }
                    if t1.contains(e) {
                        let q = choose|q: int| 0 <= q < t1.len() && t1[q] == e;
                        if q < i {
                            assert(t0[q] == e);
                            assert(rv.contains(e));
                            let q2 = choose|q2: int| 0 <= q2 < rv.len() && rv[q2] == e;
                            if q2 < k {
                                assert(nv[q2] == e);
                            } else {
                                assert(nv[q2 + 1] == e);
                            }
                        } else {
                            assert(nv[k as int] == e);
                        }
                    }
                }
            }
        }
        i += 1;
    }
    proof {
        assert(vv.take(v@.len() as int) =~= vv);
    }
    r
}

/// Whether any needle holds an ASCII uppercase letter, which makes the
/// query case sensitive.
pub fn detect_smartcase(needles: &Vec<String>) -> (r: bool)
    ensures
        r == !smart_ignore_case(needles_view(needles@)),
{
    let ghost nv = needles_view(needles@);
    let mut j: usize = 0;
    while j < needles.len()
        invariant
            j <= needles@.len(),
            nv == needles_view(needles@),
            forall|a: int, k: int|
                0 <= a < j && 0 <= k < nv[a].len() ==> !is_upper(#[trigger] nv[a][k]),
        decreases needles.len() - j,
    {
        if has_upper(needles[j].as_str()) {
            proof {
                let k = choose|k: int| 0 <= k < needles@[j as int]@.len() && is_upper(
                    #[trigger] needles@[j as int]@[k],
                );
                assert(nv[j as int][k] == needles@[j as int]@[k]);
            }
            return true;
        }
        j += 1;
    }
    false
}

/// The candidates of `list` other than the current directory, appended to `out`.
fn append_away(out: &mut Vec<Entry>, list: &Vec<Entry>, cwd: &String)
    ensures
        entries_view(final(out)@) == entries_view(old(out)@) + select(
            entries_view(list@),
            away_from(cwd@),
        ),
{
    let ghost lv = entries_view(list@);
    let ghost base = entries_view(out@);
    let ghost p = away_from(cwd@);
    let mut i: usize = 0;
    while i < list.len()
        invariant
            i <= list@.len(),
            lv == entries_view(list@),
            p == away_from(cwd@),
            entries_view(out@) == base + select(lv.take(i as int), p),
        decreases list.len() - i,
    {
        proof {
            assert(lv.take(i + 1).drop_last() =~= lv.take(i as int));
            assert(lv.take(i + 1).last() == lv[i as int]);
        }
        let away = !(list[i].0 == *cwd);
        proof {
            assert(lv[i as int] == entry_view(list@[i as int]));
            assert(p(lv[i as int].0) == away);
        }
        if away {
            let ghost before = entries_view(out@);
            out.push((list[i].0.clone(), list[i].1));
            proof {
                assert(entries_view(out@) =~= before.push(lv[i as int]));
                assert(before.push(lv[i as int]) =~= base + select(lv.take(i as int), p).push(
                    lv[i as int],
                ));
            }
        }
        i += 1;
    }
    proof {
        assert(lv.take(list@.len() as int) =~= lv);
    }
}

/// The entries of `v` whose path no earlier entry has, in order.
pub fn dedup_paths(v: &Vec<Entry>) -> (r: Vec<Entry>)
    ensures
        entries_view(r@) == dedup(entries_view(v@)),
{
    let ghost vv = entries_view(v@);
    let mut r: Vec<Entry> = Vec::new();
    let mut i: usize = 0;
    while i < v.len()
        invariant
            i <= v@.len(),
            vv == entries_view(v@),
            entries_view(r@) == dedup(vv.take(i as int)),
        decreases v.len() - i,
    {
        let ghost rv = entries_view(r@);
        let ghost xv = vv[i as int];
        proof {
            lemma_dedup(vv.take(i as int));
            assert(vv.take(i + 1).drop_last() =~= vv.take(i as int));
            assert(vv.take(i + 1).last() == xv);
            assert(xv == entry_view(v@[i as int]));
        }
        let mut j: usize = 0;
        while j < r.len() && !(r[j].0 == v[i].0)
            invariant
                j <= r@.len(),
                rv == entries_view(r@),
                i < v@.len(),
                xv == entry_view(v@[i as int]),
                forall|k: int| 0 <= k < j ==> (#[trigger] rv[k]).0 != xv.0,
            decreases r.len() - j,
        {
            j += 1;
        }
        let seen = j < r.len();
        proof {
            if seen {
                assert(rv[j as int].0 == xv.0);
                assert(has_path(rv, xv.0));
            } else {
                assert(!has_path(rv, xv.0));
            }
        }
        if !seen {
            r.push((v[i].0.clone(), v[i].1));
            proof {
                assert(entries_view(r@) =~= rv.push(xv));
            }
        }
        i += 1;
    }
    proof {
        assert(vv.take(v@.len() as int) =~= vv);
    }
    r
}

/// The three strategies' candidates, each list in rank order, concatenated
/// in the order consecutive, fuzzy, anywhere, without `cwd`, each path kept
/// only where it first occurs.
pub fn rank_matches(
    data: &Database,
    needles: &Vec<String>,
    cwd: &String,
    threshold: Option<u32>,
) -> (r: Vec<Entry>)
    requires
        needles@.len() > 0,
    ensures
        is_ranking(
            entries_view(r@),
            data@,
            needles_view(needles@),
            cwd@,
            threshold_or_default(threshold),
        ),
{
    let ignore_case = !detect_smartcase(needles);
    let a = sort_candidates(&match_consecutive(needles, data, ignore_case));
    let b = sort_candidates(&match_fuzzy(needles, data, ignore_case, threshold));
    let c = sort_candidates(&match_anywhere(needles, data, ignore_case));
    let mut all: Vec<Entry> = Vec::new();
    append_away(&mut all, &a, cwd);
    append_away(&mut all, &b, cwd);
    append_away(&mut all, &c, cwd);
    let r = dedup_paths(&all);
    proof {
        let ranked = entries_view(r@);
        assert(entries_view(all@) =~= Seq::<EntryView>::empty() + select(
            entries_view(a@),
            away_from(cwd@),
        ) + select(entries_view(b@), away_from(cwd@)) + select(
            entries_view(c@),
            away_from(cwd@),
        ));
        assert(ranking_from(
            ranked,
            entries_view(a@),
            entries_view(b@),
            entries_view(c@),
            data@,
            needles_view(needles@),
            cwd@,
            threshold_or_default(threshold),
        ));
    }
    r
}

/// The entry that stands for the current directory.
pub fn current_dir_entry() -> (r: Entry)
    ensures
        entry_view(r) == sentinel(),
{
    proof {
        reveal_strlit(".");
    }
    let s = String::from_str(".");
    proof {
        assert(s@ =~= seq!['.']);
    }
    (s, 0)
}

/// What a query returns from its ranking: the ranking itself, or, where
/// existence is checked, the entries of it that were found on disk; and the
/// current directory where that leaves nothing.
pub open spec fn query_outcome(r: Seq<EntryView>, ranked: Seq<EntryView>, check_existence: bool) -> bool {
    if check_existence {
        exists|keep: Seq<bool>|
            keep.len() == ranked.len() && r == with_fallback(#[trigger] kept(ranked, keep))
    } else {
        r == with_fallback(ranked)
    }
}

/// `r` is what a query of `needles` returns on the store `db`.
pub open spec fn query_result(
    r: Seq<EntryView>,
    db: Seq<EntryView>,
    needles: Seq<Seq<char>>,
    cwd: Seq<char>,
    threshold: nat,
    check_existence: bool,
) -> bool {
    &&& is_blank_query(needles) ==> r == seq![sentinel()]
    &&& !is_blank_query(needles) ==> exists|ranked: Seq<EntryView>|
        #[trigger] is_ranking(ranked, db, needles, cwd, threshold) && query_outcome(
            r,
            ranked,
            check_existence,
        )
}

/// The ranked results of a query.
///
/// A blank query (no needle, or an empty first needle) gives the current
/// directory. Otherwise the result is the ranking of the three strategies
/// without `cwd`; with `check_existence`, entries whose path does not exist
/// on disk are left out too. Where nothing is left, the result is the
/// current directory with weight zero.
pub fn find_matches(
    data: &Database,
    needles: &Vec<String>,
    cwd: &String,
    threshold: Option<u32>,
    check_existence: bool,
) -> (r: Vec<Entry>)
    ensures
        query_result(
            entries_view(r@),
            data@,
            needles_view(needles@),
            cwd@,
            threshold_or_default(threshold),
            check_existence,
        ),
{
    let blank = needles.len() == 0 || needles[0].as_str().unicode_len() == 0;
    if blank {
        let mut r: Vec<Entry> = Vec::new();
        r.push(current_dir_entry());
        proof {
            assert(entries_view(r@) =~= seq![sentinel()]);
        }
        return r;
    }
    let ranked = rank_matches(data, needles, cwd, threshold);
    let ghost rv = entries_view(ranked@);
    let mut keep: Vec<bool> = Vec::new();
    let mut i: usize = 0;
    while i < ranked.len()
        invariant
            i <= ranked@.len(),
            keep@.len() == i,
            !check_existence ==> forall|k: int| 0 <= k < i ==> #[trigger] keep@[k],
        decreases ranked.len() - i,
    {
        let ok = if check_existence {
            path_exists(&ranked[i].0)
        } else {
            true
        };
        keep.push(ok);
        i += 1;
    }
    let r = keep_found(&ranked, &keep);
    proof {
        if !check_existence {
            lemma_kept_all(rv, keep@);
        }
        assert(keep@.len() == rv.len() && entries_view(r@) == with_fallback(kept(rv, keep@)));
        assert(is_ranking(rv, data@, needles_view(needles@), cwd@, threshold_or_default(threshold)));
        assert(query_outcome(entries_view(r@), rv, check_existence));
    }
    r
}

/// Keeping every entry keeps the list as it is.
pub proof fn lemma_kept_all(s: Seq<EntryView>, keep: Seq<bool>)
    requires
        keep.len() == s.len(),
        forall|k: int| 0 <= k < keep.len() ==> #[trigger] keep[k],
    ensures
        kept(s, keep) == s,
    decreases s.len(),
{
    if s.len() > 0 {
        lemma_kept_all(s.drop_last(), keep.drop_last());
        assert(keep[keep.len() - 1]);
        assert(s.drop_last().push(s.last()) =~= s);
    }
}

/// The entries of the ranking `ranked` whose flag in `keep` is set (those
/// found on disk), or the current directory where none is.
pub fn keep_found(ranked: &Vec<Entry>, keep: &Vec<bool>) -> (r: Vec<Entry>)
    requires
        keep@.len() == ranked@.len(),
    ensures
        entries_view(r@) == with_fallback(kept(entries_view(ranked@), keep@)),
{
    let ghost rv = entries_view(ranked@);
    let mut r: Vec<Entry> = Vec::new();
    let mut i: usize = 0;
    while i < ranked.len()
        invariant
            i <= ranked@.len(),
            keep@.len() == ranked@.len(),
            rv == entries_view(ranked@),
            entries_view(r@) == kept(rv.take(i as int), keep@.take(i as int)),
        decreases ranked.len() - i,
    {
        proof {
            assert(rv.take(i + 1).drop_last() =~= rv.take(i as int));
            assert(keep@.take(i + 1).drop_last() =~= keep@.take(i as int));
            assert(rv[i as int] == entry_view(ranked@[i as int]));
        }
        if keep[i] {
            let ghost before = entries_view(r@);
            r.push((ranked[i].0.clone(), ranked[i].1));
            proof {
                assert(entries_view(r@) =~= before.push(rv[i as int]));
            }
        }
        i += 1;
    }
    proof {
        assert(rv.take(ranked@.len() as int) =~= rv);
        assert(keep@.take(ranked@.len() as int) =~= keep@);
    }
    if r.len() == 0 {
        r.push(current_dir_entry());
        proof {
            assert(entries_view(r@) =~= seq![sentinel()]);
        }
    }
    r
}

} // verus!
