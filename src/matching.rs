//! The three matching strategies. Each takes the needles, the store and the
//! case policy, and returns the store's entries that it accepts, in the
//! store's order.
use crate::database::{entries_view, entry_view, Database, Entry, EntryView};
use crate::text::{
    contains_chars, fold_case, folded_chars, last_part, lemma_split_parts_nonempty, seq_contains,
    split_chars, split_parts,
};
use vstd::prelude::*;

verus! {

/// Default similarity threshold of the fuzzy strategy, in thousandths (0.6).
pub const FUZZY_THRESHOLD: u32 = 600;

/// The Levenshtein distance between two texts, counted in characters: the
/// fewest single-character deletions, insertions and substitutions that turn
/// `a` into `b`.
pub open spec fn levenshtein(a: Seq<char>, b: Seq<char>) -> nat
    decreases a.len() + b.len(),
{
    if a.len() == 0 {
        b.len()
    } else if b.len() == 0 {
        a.len()
    } else {
        let replace = levenshtein(a.drop_last(), b.drop_last()) + if a.last() == b.last() {
            0nat
        } else {
            1nat
        };
        let delete = levenshtein(a.drop_last(), b) + 1;
        let insert = levenshtein(a, b.drop_last()) + 1;
        if replace <= delete && replace <= insert {
            replace
        } else if delete <= insert {
            delete
        } else {
            insert
        }
    }
}

/// Relies on `strsim::levenshtein`: the minimum number of single-character
/// insertions, deletions and substitutions that turn `a` into `b`.
#[verifier::external_body]
fn edit_distance(a: &Vec<char>, b: &Vec<char>) -> (r: usize)
    ensures
        r == levenshtein(a@, b@),
{
    let a: String = a.iter().collect();
    let b: String = b.iter().collect();
    strsim::levenshtein(&a, &b)
}

pub open spec fn needles_view(n: Seq<String>) -> Seq<Seq<char>> {
    n.map_values(|s: String| s@)
}

/// Whether the normalized similarity `1 - distance / longest` reaches
/// `threshold` thousandths; two empty texts are identical (similarity 1).
pub open spec fn similar_enough(distance: nat, len_a: nat, len_b: nat, threshold: nat) -> bool {
    let longest = if len_a >= len_b {
        len_a
    } else {
        len_b
    };
    if longest == 0 {
        threshold <= 1000
    } else {
        (longest - distance) * 1000 >= threshold * longest
    }
}

/// Every needle occurs somewhere in the path.
pub open spec fn anywhere_match(needles: Seq<Seq<char>>, path: Seq<char>, ignore_case: bool) -> bool {
    forall|j: int|
        0 <= j < needles.len() ==> seq_contains(
            fold_case(path, ignore_case),
            fold_case(#[trigger] needles[j], ignore_case),
        )
}

/// The needles occur, in order, in the last components of the path, the
/// last needle in the last component.
pub open spec fn consecutive_match(
    needles: Seq<Seq<char>>,
    path: Seq<char>,
    ignore_case: bool,
) -> bool {
    let parts = split_parts(fold_case(path, ignore_case));
    needles.len() <= parts.len() && forall|j: int|
        0 <= j < needles.len() ==> seq_contains(
            parts[parts.len() - needles.len() + j],
            fold_case(#[trigger] needles[j], ignore_case),
        )
}

/// The last needle is similar enough to the path's last component.
pub open spec fn fuzzy_match(
    needles: Seq<Seq<char>>,
    path: Seq<char>,
    ignore_case: bool,
    threshold: nat,
) -> bool {
    needles.len() > 0 && {
        let a = fold_case(needles.last(), ignore_case);
        let b = last_part(fold_case(path, ignore_case));
        similar_enough(levenshtein(a, b), a.len(), b.len(), threshold)
    }
}

pub open spec fn anywhere_pred(needles: Seq<Seq<char>>, ignore_case: bool) -> spec_fn(
    Seq<char>,
) -> bool {
    |p: Seq<char>| anywhere_match(needles, p, ignore_case)
}

pub open spec fn consecutive_pred(needles: Seq<Seq<char>>, ignore_case: bool) -> spec_fn(
    Seq<char>,
) -> bool {
    |p: Seq<char>| consecutive_match(needles, p, ignore_case)
}

pub open spec fn fuzzy_pred(needles: Seq<Seq<char>>, ignore_case: bool, threshold: nat) -> spec_fn(
    Seq<char>,
) -> bool {
    |p: Seq<char>| fuzzy_match(needles, p, ignore_case, threshold)
}

/// The threshold that an optional override stands for.
pub open spec fn threshold_or_default(threshold: Option<u32>) -> nat {
    match threshold {
        Some(t) => t as nat,
        None => FUZZY_THRESHOLD as nat,
    }
}

/// The entries of `s` whose path satisfies `p`, in order.
pub open spec fn select(s: Seq<EntryView>, p: spec_fn(Seq<char>) -> bool) -> Seq<EntryView>
    decreases s.len(),
{
    if s.len() == 0 {
        Seq::empty()
    } else if p(s.last().0) {
        select(s.drop_last(), p).push(s.last())
    } else {
        select(s.drop_last(), p)
    }
}

pub proof fn lemma_select_contains(s: Seq<EntryView>, p: spec_fn(Seq<char>) -> bool, e: EntryView)
    ensures
        select(s, p).contains(e) <==> s.contains(e) && p(e.0),
    decreases s.len(),
{
    if s.len() > 0 {
        let s0 = s.drop_last();
        lemma_select_contains(s0, p, e);
        let r0 = select(s0, p);
        if s.contains(e) && p(e.0) {
            let i = choose|i: int| 0 <= i < s.len() && s[i] == e;
            if i < s.len() - 1 {
                assert(s0[i] == e);
                let k = choose|k: int| 0 <= k < r0.len() && r0[k] == e;
                if p(s.last().0) {
                    assert(r0.push(s.last())[k] == e);
                }
            } else {
                assert(select(s, p)[select(s, p).len() - 1] == e);
            }
        }
        if select(s, p).contains(e) {
            let k = choose|k: int| 0 <= k < select(s, p).len() && select(s, p)[k] == e;
            if k < r0.len() {
                assert(r0[k] == e);
                let i = choose|i: int| 0 <= i < s0.len() && s0[i] == e;
                assert(s[i] == e);
            } else {
                assert(s[s.len() - 1] == e);
            }
        }
    }
}

/// The needles as the matchers compare them.
fn fold_all(needles: &Vec<String>, ignore_case: bool) -> (r: Vec<Vec<char>>)
    ensures
        r@.len() == needles@.len(),
        forall|j: int|
            0 <= j < r@.len() ==> #[trigger] r@[j]@ == fold_case(needles@[j]@, ignore_case),
{
    let mut r: Vec<Vec<char>> = Vec::new();
    let mut i: usize = 0;
    while i < needles.len()
        invariant
            i <= needles@.len(),
            r@.len() == i,
            forall|j: int|
                0 <= j < i ==> #[trigger] r@[j]@ == fold_case(needles@[j]@, ignore_case),
        decreases needles.len() - i,
    {
        r.push(folded_chars(needles[i].as_str(), ignore_case));
        i += 1;
    }
    r
}

fn anywhere_ok(
    path: &String,
    folded: &Vec<Vec<char>>,
    Ghost(needles): Ghost<Seq<Seq<char>>>,
    ignore_case: bool,
) -> (r: bool)
    requires
        folded@.len() == needles.len(),
        forall|j: int|
            0 <= j < folded@.len() ==> #[trigger] folded@[j]@ == fold_case(needles[j], ignore_case),
    ensures
        r == anywhere_match(needles, path@, ignore_case),
{
    let hay = folded_chars(path.as_str(), ignore_case);
    let mut j: usize = 0;
    while j < folded.len()
        invariant
            j <= folded@.len(),
            folded@.len() == needles.len(),
            hay@ == fold_case(path@, ignore_case),
            forall|k: int|
                0 <= k < folded@.len() ==> #[trigger] folded@[k]@ == fold_case(
                    needles[k],
                    ignore_case,
                ),
            forall|k: int|
                0 <= k < j ==> seq_contains(
                    fold_case(path@, ignore_case),
                    fold_case(#[trigger] needles[k], ignore_case),
                ),
        decreases folded.len() - j,
    {
        if !contains_chars(&hay, &folded[j]) {
            assert(folded@[j as int]@ == fold_case(needles[j as int], ignore_case));
            return false;
        }
        assert(folded@[j as int]@ == fold_case(needles[j as int], ignore_case));
        j += 1;
    }
    true
}

fn consecutive_ok(
    path: &String,
    folded: &Vec<Vec<char>>,
    Ghost(needles): Ghost<Seq<Seq<char>>>,
    ignore_case: bool,
) -> (r: bool)
    requires
        folded@.len() == needles.len(),
        forall|j: int|
            0 <= j < folded@.len() ==> #[trigger] folded@[j]@ == fold_case(needles[j], ignore_case),
    ensures
        r == consecutive_match(needles, path@, ignore_case),
{
    let hay = folded_chars(path.as_str(), ignore_case);
    let parts = split_chars(&hay);
    let ghost sp = split_parts(fold_case(path@, ignore_case));
    if parts.len() < folded.len() {
        return false;
    }
    let base = parts.len() - folded.len();
    let mut j: usize = 0;
    while j < folded.len()
        invariant
            j <= folded@.len(),
            folded@.len() == needles.len(),
            base + folded.len() == parts.len(),
            sp == split_parts(fold_case(path@, ignore_case)),
            parts@.len() == sp.len(),
            forall|k: int| 0 <= k < parts@.len() ==> #[trigger] parts@[k]@ == sp[k],
            forall|k: int|
                0 <= k < folded@.len() ==> #[trigger] folded@[k]@ == fold_case(
                    needles[k],
                    ignore_case,
                ),
            forall|k: int|
                0 <= k < j ==> seq_contains(
                    sp[sp.len() - needles.len() + k],
                    fold_case(#[trigger] needles[k], ignore_case),
                ),
        decreases folded.len() - j,
    {
        assert(folded@[j as int]@ == fold_case(needles[j as int], ignore_case));
        assert(parts@[base + j]@ == sp[base + j]);
        let found = contains_chars(&parts[base + j], &folded[j]);
        assert(found == seq_contains(parts@[base + j]@, folded@[j as int]@));
        if !found {
            assert(base + j == sp.len() - needles.len() + j);
            assert(!seq_contains(
                sp[sp.len() - needles.len() + j],
                fold_case(needles[j as int], ignore_case),
            ));
            assert(!consecutive_match(needles, path@, ignore_case));
            return false;
        }
        j += 1;
    }
    true
}

/// Whether a distance of `distance` between texts of `len_a` and `len_b`
/// characters reaches the similarity `threshold` (in thousandths).
pub fn meets_threshold(distance: usize, len_a: usize, len_b: usize, threshold: u32) -> (r: bool)
    ensures
        r == similar_enough(distance as nat, len_a as nat, len_b as nat, threshold as nat),
{
    let longest = if len_a >= len_b {
        len_a
    } else {
        len_b
    };
    if longest == 0 {
        threshold <= 1000
    } else if distance > longest {
        proof {
            assert((longest - distance) * 1000 < 0) by (nonlinear_arith)
                requires
                    distance > longest,
            ;
            assert(threshold as nat * longest >= 0) by (nonlinear_arith);
        }
        false
    } else {
        let lhs: u128 = ((longest - distance) as u128) * 1000;
        proof {
            let t = threshold as int;
            let l = longest as int;
            assert(0 <= t < 0x1_0000_0000 && 0 <= l <= 0xffff_ffff_ffff_ffff);
            assert(t * l < 0x1_0000_0000 * 0x1_0000_0000_0000_0000) by (nonlinear_arith)
                requires
                    0 <= t < 0x1_0000_0000,
                    0 <= l <= 0xffff_ffff_ffff_ffff,
            ;
        }
        let rhs: u128 = (threshold as u128) * (longest as u128);
        lhs >= rhs
    }
}

fn fuzzy_ok(
    path: &String,
    last_needle: &Vec<char>,
    Ghost(needles): Ghost<Seq<Seq<char>>>,
    ignore_case: bool,
    threshold: u32,
) -> (r: bool)
    requires
        needles.len() > 0,
        last_needle@ == fold_case(needles.last(), ignore_case),
    ensures
        r == fuzzy_match(needles, path@, ignore_case, threshold as nat),
{
    let hay = folded_chars(path.as_str(), ignore_case);
    let parts = split_chars(&hay);
    proof {
        lemma_split_parts_nonempty(hay@);
    }
    let end = &parts[parts.len() - 1];
    let d = edit_distance(last_needle, end);
    meets_threshold(d, last_needle.len(), end.len(), threshold)
}

/// The entries whose path holds every needle somewhere, in any overlap but
/// compared in order of the needles.
pub fn match_anywhere(needles: &Vec<String>, data: &Database, ignore_case: bool) -> (r: Vec<Entry>)
    ensures
        entries_view(r@) == select(data@, anywhere_pred(needles_view(needles@), ignore_case)),
{
    let ghost nv = needles_view(needles@);
    let ghost p = anywhere_pred(nv, ignore_case);
    let folded = fold_all(needles, ignore_case);
    let entries = data.entries();
    let mut r: Vec<Entry> = Vec::new();
    let mut i: usize = 0;
    while i < entries.len()
        invariant
            i <= entries@.len(),
            entries_view(entries@) == data@,
            nv == needles_view(needles@),
            p == anywhere_pred(nv, ignore_case),
            folded@.len() == nv.len(),
            forall|j: int|
                0 <= j < folded@.len() ==> #[trigger] folded@[j]@ == fold_case(nv[j], ignore_case),
            entries_view(r@) == select(data@.take(i as int), p),
        decreases entries.len() - i,
    {
        proof {
            assert(data@.take(i + 1).drop_last() =~= data@.take(i as int));
        }
        let e = &entries[i];
        let ok = anywhere_ok(&e.0, &folded, Ghost(nv), ignore_case);
        proof {
            assert(data@.take(i + 1).last() == data@[i as int]);
            assert(data@[i as int] == entry_view(entries@[i as int]));
            assert(p(data@[i as int].0) == ok);
        }
        if ok {
            r.push((e.0.clone(), e.1));
            proof {
                assert(entries_view(r@) =~= select(data@.take(i as int), p).push(data@[i as int]));
            }
        }
        i += 1;
    }
    proof {
        assert(data@.take(entries@.len() as int) =~= data@);
    }
    r
}

/// The entries whose trailing components hold the needles in order.
pub fn match_consecutive(needles: &Vec<String>, data: &Database, ignore_case: bool) -> (r: Vec<
    Entry,
>)
    ensures
        entries_view(r@) == select(data@, consecutive_pred(needles_view(needles@), ignore_case)),
{
    let ghost nv = needles_view(needles@);
    let ghost p = consecutive_pred(nv, ignore_case);
    let folded = fold_all(needles, ignore_case);
    let entries = data.entries();
    let mut r: Vec<Entry> = Vec::new();
    let mut i: usize = 0;
    while i < entries.len()
        invariant
            i <= entries@.len(),
            entries_view(entries@) == data@,
            nv == needles_view(needles@),
            p == consecutive_pred(nv, ignore_case),
            folded@.len() == nv.len(),
            forall|j: int|
                0 <= j < folded@.len() ==> #[trigger] folded@[j]@ == fold_case(nv[j], ignore_case),
            entries_view(r@) == select(data@.take(i as int), p),
        decreases entries.len() - i,
    {
        proof {
            assert(data@.take(i + 1).drop_last() =~= data@.take(i as int));
        }
        let e = &entries[i];
        let ok = consecutive_ok(&e.0, &folded, Ghost(nv), ignore_case);
        proof {
            assert(data@.take(i + 1).last() == data@[i as int]);
            assert(data@[i as int] == entry_view(entries@[i as int]));
            assert(p(data@[i as int].0) == ok);
        }
        if ok {
            r.push((e.0.clone(), e.1));
            proof {
                assert(entries_view(r@) =~= select(data@.take(i as int), p).push(data@[i as int]));
            }
        }
        i += 1;
    }
    proof {
        assert(data@.take(entries@.len() as int) =~= data@);
    }
    r
}

/// The entries whose last component is similar enough to the last needle;
/// `threshold` overrides the default similarity, in thousandths.
pub fn match_fuzzy(
    needles: &Vec<String>,
    data: &Database,
    ignore_case: bool,
    threshold: Option<u32>,
) -> (r: Vec<Entry>)
    requires
        needles@.len() > 0,
    ensures
        entries_view(r@) == select(
            data@,
            fuzzy_pred(needles_view(needles@), ignore_case, threshold_or_default(threshold)),
        ),
{
    let ghost nv = needles_view(needles@);
    let t = match threshold {
        Some(t) => t,
        None => FUZZY_THRESHOLD,
    };
    let ghost p = fuzzy_pred(nv, ignore_case, t as nat);
    let last_needle = folded_chars(needles[needles.len() - 1].as_str(), ignore_case);
    let entries = data.entries();
    let mut r: Vec<Entry> = Vec::new();
    let mut i: usize = 0;
    while i < entries.len()
        invariant
            i <= entries@.len(),
            nv.len() > 0,
            nv == needles_view(needles@),
            p == fuzzy_pred(nv, ignore_case, t as nat),
            last_needle@ == fold_case(nv.last(), ignore_case),
            entries_view(entries@) == data@,
            entries_view(r@) == select(data@.take(i as int), p),
        decreases entries.len() - i,
    {
        proof {
            assert(data@.take(i + 1).drop_last() =~= data@.take(i as int));
        }
        let e = &entries[i];
        let ok = fuzzy_ok(&e.0, &last_needle, Ghost(nv), ignore_case, t);
        proof {
            assert(data@.take(i + 1).last() == data@[i as int]);
            assert(data@[i as int] == entry_view(entries@[i as int]));
            assert(p(data@[i as int].0) == ok);
        }
        if ok {
            r.push((e.0.clone(), e.1));
            proof {
                assert(entries_view(r@) =~= select(data@.take(i as int), p).push(data@[i as int]));
            }
        }
        i += 1;
    }
    proof {
        assert(data@.take(entries@.len() as int) =~= data@);
    }
    r
}

} // verus!
