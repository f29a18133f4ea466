//! The tab-completion protocol and the statistics listing.
//!
//! A completion entry has the form `needle__index__path`. The state of a
//! completion lives in the first needle alone: a bare needle asks for the
//! menu (or, when jumping, for the best path), `needle__index` picks an
//! entry of the menu, and a full entry is echoed as it stands.
use crate::database::{entries_view, Database, Entry, EntryView};
use crate::matching::{needles_view, threshold_or_default};
use crate::path::{append_chars, normalize_path, normalized};
use crate::rank::{
    find_matches, query_outcome, query_result, sort_candidates, sorted_as, with_fallback,
};
use crate::text::{chars_of, push_char};
use vstd::prelude::*;

verus! {

/// How many entries the completion menu offers.
pub const TAB_ENTRIES_COUNT: usize = 9;

/// Why a query could not be answered.
#[derive(Debug, Clone, Copy, PartialEq, Eq, Structural)]
pub enum QueryError {
    /// No needle was given.
    NoNeedles,
    /// The picked index is past the end of the menu.
    IndexOutOfRange,
}

/// The pieces of `s` between two-underscore delimiters, from the left;
/// `cur` is the piece read so far.
pub open spec fn pieces_from(s: Seq<char>, cur: Seq<char>) -> Seq<Seq<char>>
    decreases s.len(),
{
    if s.len() == 0 {
        seq![cur]
    } else if s.len() >= 2 && s[0] == '_' && s[1] == '_' {
        seq![cur] + pieces_from(s.subrange(2, s.len() as int), Seq::empty())
    } else {
        pieces_from(s.drop_first(), cur.push(s[0]))
    }
}

/// The pieces of a completion entry.
pub open spec fn tab_pieces(s: Seq<char>) -> Seq<Seq<char>> {
    pieces_from(s, Seq::empty())
}

pub open spec fn is_digit(c: char) -> bool {
    '0' <= c && c <= '9'
}

pub open spec fn digit_value(c: char) -> nat {
    ((c as u32) - ('0' as u32)) as nat
}

/// The number that a string of decimal digits writes.
pub open spec fn digits_value(d: Seq<char>) -> nat
    decreases d.len(),
{
    if d.len() == 0 {
        0
    } else {
        digits_value(d.drop_last()) * 10 + digit_value(d.last())
    }
}

/// The digits of `s` after an optional `+`.
pub open spec fn unsigned_digits(s: Seq<char>) -> Seq<char> {
    if s.len() > 0 && s[0] == '+' {
        s.drop_first()
    } else {
        s
    }
}

/// The index that `s` writes: an optional `+`, then one or more decimal
/// digits, of a value that fits in `usize`.
pub open spec fn parsed_index(s: Seq<char>) -> Option<nat> {
    let d = unsigned_digits(s);
    if d.len() > 0 && (forall|i: int| 0 <= i < d.len() ==> is_digit(#[trigger] d[i]))
        && digits_value(d) <= usize::MAX {
        Some(digits_value(d))
    } else {
        None
    }
}

pub open spec fn index_or_zero(s: Seq<char>) -> nat {
    match parsed_index(s) {
        Some(n) => n,
        None => 0,
    }
}

pub open spec fn lines_view(v: Seq<String>) -> Seq<Seq<char>> {
    v.map_values(|s: String| s@)
}

pub open spec fn normalized_needles(n: Seq<Seq<char>>) -> Seq<Seq<char>> {
    n.map_values(|s: Seq<char>| normalized(s))
}

/// One line of the completion menu: `needle__n__path`, `n` counted from one.
pub open spec fn menu_line(needle: Seq<char>, i: nat, path: Seq<char>) -> Seq<char> {
    needle + seq!['_', '_'] + seq![(('0' as u32) + i + 1) as char] + seq!['_', '_'] + path
}

/// The menu lines of the first `n` results, skipping empty paths.
pub open spec fn menu_lines(needle: Seq<char>, res: Seq<EntryView>, n: int) -> Seq<Seq<char>>
    decreases n,
{
    if n <= 0 {
        Seq::empty()
    } else if res[n - 1].0.len() > 0 {
        menu_lines(needle, res, n - 1).push(menu_line(needle, (n - 1) as nat, res[n - 1].0))
    } else {
        menu_lines(needle, res, n - 1)
    }
}

pub open spec fn menu_len(res: Seq<EntryView>) -> int {
    if res.len() < TAB_ENTRIES_COUNT {
        res.len() as int
    } else {
        TAB_ENTRIES_COUNT as int
    }
}

/// What picking the entry at `index` of `res` prints.
pub open spec fn pick_outcome(r: Result<Vec<String>, QueryError>, res: Seq<EntryView>, index: nat) -> bool {
    if index < res.len() {
        r is Ok && lines_view(r->Ok_0@) == seq![res[index as int].0]
    } else {
        r == Err::<Vec<String>, QueryError>(QueryError::IndexOutOfRange)
    }
}

/// The lines that answer a completion or jump request, `needles` being
/// already normalized.
pub open spec fn answer(
    r: Result<Vec<String>, QueryError>,
    db: Seq<EntryView>,
    needles: Seq<Seq<char>>,
    cwd: Seq<char>,
    threshold: nat,
    complete: bool,
) -> bool {
    let pc = tab_pieces(needles[0]);
    &&& pc.len() >= 3 ==> r is Ok && lines_view(r->Ok_0@) == seq![pc[2]]
    &&& pc.len() == 2 ==> exists|res: Seq<EntryView>|
        #[trigger] query_result(res, db, seq![pc[0]], cwd, threshold, false) && pick_outcome(
            r,
            res,
            index_or_zero(pc[1]),
        )
    &&& pc.len() == 1 && complete ==> exists|res: Seq<EntryView>|
        #[trigger] query_result(res, db, needles, cwd, threshold, false) && r is Ok && lines_view(
            r->Ok_0@,
        ) == menu_lines(pc[0], res, menu_len(res))
    &&& pc.len() == 1 && !complete ==> exists|res: Seq<EntryView>|
        #[trigger] query_result(res, db, needles, cwd, threshold, true) && res.len() > 0 && r is Ok
            && lines_view(r->Ok_0@) == seq![res[0].0]
}

pub proof fn lemma_pieces_nonempty(s: Seq<char>, cur: Seq<char>)
    ensures
        pieces_from(s, cur).len() >= 1,
    decreases s.len(),
{
    if s.len() > 0 {
        if s.len() >= 2 && s[0] == '_' && s[1] == '_' {
            lemma_pieces_nonempty(s.subrange(2, s.len() as int), Seq::empty());
        } else {
            lemma_pieces_nonempty(s.drop_first(), cur.push(s[0]));
        }
    }
}

pub proof fn lemma_query_result_nonempty(
    r: Seq<EntryView>,
    db: Seq<EntryView>,
    needles: Seq<Seq<char>>,
    cwd: Seq<char>,
    threshold: nat,
    check_existence: bool,
)
    requires
        query_result(r, db, needles, cwd, threshold, check_existence),
    ensures
        r.len() > 0,
{
    if !crate::rank::is_blank_query(needles) {
        let ranked = choose|ranked: Seq<EntryView>|
            #[trigger] crate::rank::is_ranking(ranked, db, needles, cwd, threshold)
                && query_outcome(r, ranked, check_existence);
        if check_existence {
            let keep = choose|keep: Seq<bool>|
                keep.len() == ranked.len() && r == with_fallback(
                    #[trigger] crate::database::kept(ranked, keep),
                );
        }
    }
}

proof fn lemma_digits_monotone(d: Seq<char>, j: int)
    requires
        0 <= j <= d.len(),
    ensures
        digits_value(d.take(j)) <= digits_value(d),
    decreases d.len(),
{
    if j < d.len() {
        assert(d.drop_last().take(j) =~= d.take(j));
        lemma_digits_monotone(d.drop_last(), j);
    } else {
        assert(d.take(j) =~= d);
    }
}

/// The pieces of a completion entry.
pub fn split_tab(s: &Vec<char>) -> (r: Vec<Vec<char>>)
    ensures
        lines_of_chars(r@) == tab_pieces(s@),
{
    let mut done: Vec<Vec<char>> = Vec::new();
    let mut cur: Vec<char> = Vec::new();
    let mut i: usize = 0;
    proof {
        assert(s@.subrange(0, s@.len() as int) =~= s@);
        assert(lines_of_chars(done@) =~= Seq::<Seq<char>>::empty());
        assert(cur@ =~= Seq::<char>::empty());
        assert(Seq::<Seq<char>>::empty() + tab_pieces(s@) =~= tab_pieces(s@));
    }
    while i < s.len()
        invariant
            i <= s@.len(),
            lines_of_chars(done@) + pieces_from(s@.subrange(i as int, s@.len() as int), cur@)
                == tab_pieces(s@),
        decreases s.len() - i,
    {
        let ghost sub = s@.subrange(i as int, s@.len() as int);
        let ghost d0 = lines_of_chars(done@);
        if i + 1 < s.len() && s[i] == '_' && s[i + 1] == '_' {
            proof {
                assert(sub.subrange(2, sub.len() as int) =~= s@.subrange(i + 2, s@.len() as int));
            }
            done.push(cur);
            cur = Vec::new();
            i += 2;
            proof {
                assert(lines_of_chars(done@) =~= d0.push(lines_of_chars(done@).last()));
                assert(d0 + (seq![lines_of_chars(done@).last()] + pieces_from(
                    s@.subrange(i as int, s@.len() as int),
                    Seq::empty(),
                )) =~= lines_of_chars(done@) + pieces_from(
                    s@.subrange(i as int, s@.len() as int),
                    cur@,
                ));
            }
        } else {
            proof {
                assert(sub.drop_first() =~= s@.subrange(i + 1, s@.len() as int));
            }
            cur.push(s[i]);
            i += 1;
            proof {
                assert(lines_of_chars(done@) =~= d0);
            }
        }
    }
    let ghost d0 = lines_of_chars(done@);
    done.push(cur);
    proof {
        assert(lines_of_chars(done@) =~= d0.push(lines_of_chars(done@).last()));
        assert(lines_of_chars(done@) =~= d0 + seq![lines_of_chars(done@).last()]);
    }
    done
}

pub open spec fn lines_of_chars(v: Seq<Vec<char>>) -> Seq<Seq<char>> {
    v.map_values(|c: Vec<char>| c@)
}

/// The index that `s` writes, if it writes one.
pub fn parse_index(s: &Vec<char>) -> (r: Option<usize>)
    ensures
        r matches Some(n) ==> parsed_index(s@) == Some(n as nat),
        r is None ==> parsed_index(s@) is None,
{
    let start: usize = if s.len() > 0 && s[0] == '+' {
        1
    } else {
        0
    };
    let ghost d = unsigned_digits(s@);
    proof {
        assert(d =~= s@.subrange(start as int, s@.len() as int));
    }
    if start == s.len() {
        assert(d.len() == 0);
        return None;
    }
    let mut v: usize = 0;
    let mut i: usize = start;
    while i < s.len()
        invariant
            start <= i <= s@.len(),
            start < s@.len(),
            d == unsigned_digits(s@),
            d == s@.subrange(start as int, s@.len() as int),
            forall|k: int| 0 <= k < i - start ==> is_digit(#[trigger] d[k]),
            v == digits_value(d.take(i - start)),
        decreases s.len() - i,
    {
        let c = s[i];
        if !('0' <= c && c <= '9') {
            assert(!is_digit(d[i - start]));
            return None;
        }
        let digit: usize = (c as u32 - '0' as u32) as usize;
        proof {
            assert(d.take(i - start + 1).drop_last() =~= d.take(i - start));
            assert(d.take(i - start + 1).last() == c);
            assert(digit_value(c) == digit);
            assert(digits_value(d.take(i - start + 1)) == v * 10 + digit);
        }
        if v > (usize::MAX - digit) / 10 {
            proof {
                assert(v * 10 + digit > usize::MAX) by (nonlinear_arith)
                    requires
                        v > (usize::MAX - digit) / 10,
                        digit <= 9,
                ;
                lemma_digits_monotone(d, i - start + 1);
            }
            return None;
        }
        proof {
            assert(v * 10 + digit <= usize::MAX) by (nonlinear_arith)
                requires
                    v <= (usize::MAX - digit) / 10,
                    digit <= 9,
            ;
        }
        v = v * 10 + digit;
        i += 1;
    }
    proof {
        assert(d.take(s@.len() - start) =~= d);
    }
    Some(v)
}

fn string_of(cs: &Vec<char>) -> (r: String)
    ensures
        r@ == cs@,
{
    let mut r = String::new();
    append_chars(&mut r, cs);
    proof {
        assert(r@ =~= cs@);
    }
    r
}

fn menu_line_of(needle: &Vec<char>, i: usize, path: &String) -> (r: String)
    requires
        i < TAB_ENTRIES_COUNT,
    ensures
        r@ == menu_line(needle@, i as nat, path@),
{
    let mut r = string_of(needle);
    push_char(&mut r, '_');
    push_char(&mut r, '_');
    push_char(&mut r, ((i as u8) + 1 + ('0' as u8)) as char);
    push_char(&mut r, '_');
    push_char(&mut r, '_');
    let p = chars_of(path.as_str());
    append_chars(&mut r, &p);
    proof {
        assert(((i as u8) + 1 + ('0' as u8)) as char == (('0' as u32) + i + 1) as char);
        assert(r@ =~= menu_line(needle@, i as nat, path@));
    }
    r
}

/// The lines that answer a completion (`complete`) or jump request.
///
/// The needles are normalized first. A full entry `needle__index__path`
/// gives its path; `needle__index` gives the path at that index among the
/// results of `needle` (index zero where it does not parse); a bare needle
/// gives, when completing, a menu line for each of the first results with a
/// non-empty path, and when jumping, the best result among those that exist
/// on disk.
pub fn find_results(
    needles: &Vec<String>,
    data: &Database,
    cwd: &String,
    threshold: Option<u32>,
    complete: bool,
) -> (r: Result<Vec<String>, QueryError>)
    ensures
        needles@.len() == 0 <==> r == Err::<Vec<String>, QueryError>(QueryError::NoNeedles),
        needles@.len() > 0 ==> answer(
            r,
            data@,
            normalized_needles(needles_view(needles@)),
            cwd@,
            threshold_or_default(threshold),
            complete,
        ),
{
    if needles.len() == 0 {
        return Err(QueryError::NoNeedles);
    }
    let ghost t = threshold_or_default(threshold);
    let mut ns: Vec<String> = Vec::new();
    let mut j: usize = 0;
    while j < needles.len()
        invariant
            j <= needles@.len(),
            ns@.len() == j,
            forall|k: int| 0 <= k < j ==> #[trigger] ns@[k]@ == normalized(needles@[k]@),
        decreases needles.len() - j,
    {
        ns.push(normalize_path(&needles[j]));
        j += 1;
    }
    let ghost nv = normalized_needles(needles_view(needles@));
    proof {
        assert(needles_view(ns@) =~= nv);
    }
    let first = chars_of(ns[0].as_str());
    let pieces = split_tab(&first);
    proof {
        lemma_pieces_nonempty(first@, Seq::empty());
        assert(pieces@[0]@ == tab_pieces(nv[0])[0]);
    }
    let ghost pc = tab_pieces(nv[0]);
    if pieces.len() >= 3 {
        let mut lines: Vec<String> = Vec::new();
        lines.push(string_of(&pieces[2]));
        proof {
            assert(pieces@[2]@ == pc[2]);
            assert(lines_view(lines@) =~= seq![pc[2]]);
        }
        let r = Ok(lines);
        proof {
            assert(answer(r, data@, nv, cwd@, t, complete));
        }
        return r;
    }
    if pieces.len() == 2 {
        let index: usize = match parse_index(&pieces[1]) {
            Some(n) => n,
            None => 0,
        };
        let mut one: Vec<String> = Vec::new();
        one.push(string_of(&pieces[0]));
        proof {
            assert(pieces@[0]@ == pc[0] && pieces@[1]@ == pc[1]);
            assert(needles_view(one@) =~= seq![pc[0]]);
        }
        let results = find_matches(data, &one, cwd, threshold, false);
        let ghost res = entries_view(results@);
        let r = if index < results.len() {
            let mut lines: Vec<String> = Vec::new();
            lines.push(results[index].0.clone());
            proof {
                assert(lines_view(lines@) =~= seq![res[index as int].0]);
            }
            Ok(lines)
        } else {
            Err(QueryError::IndexOutOfRange)
        };
        proof {
            assert(query_result(res, data@, seq![pc[0]], cwd@, t, false) && pick_outcome(
                r,
                res,
                index_or_zero(pc[1]),
            ));
            assert(answer(r, data@, nv, cwd@, t, complete));
        }
        return r;
    }
    proof {
        assert(pieces@[0]@ == pc[0]);
    }
    if complete {
        let results = find_matches(data, &ns, cwd, threshold, false);
        let ghost res = entries_view(results@);
        let n = if results.len() < TAB_ENTRIES_COUNT {
            results.len()
        } else {
            TAB_ENTRIES_COUNT
        };
        let mut lines: Vec<String> = Vec::new();
        let mut i: usize = 0;
        while i < n
            invariant
                i <= n,
                n <= TAB_ENTRIES_COUNT,
                n <= results@.len(),
                res == entries_view(results@),
                pieces@.len() == 1,
                pieces@[0]@ == pc[0],
                lines_view(lines@) == menu_lines(pc[0], res, i as int),
            decreases n - i,
        {
            let ghost before = lines_view(lines@);
            let path = &results[i].0;
            proof {
                assert(res[i as int].0 == path@);
            }
            if path.as_str().unicode_len() > 0 {
                lines.push(menu_line_of(&pieces[0], i, path));
                proof {
                    assert(lines_view(lines@) =~= before.push(
                        menu_line(pc[0], i as nat, res[i as int].0),
                    ));
                }
            }
            i += 1;
        }
        let r = Ok(lines);
        proof {
            assert(menu_len(res) == n);
            assert(query_result(res, data@, nv, cwd@, t, false));
            assert(answer(r, data@, nv, cwd@, t, complete));
        }
        r
    } else {
        let results = find_matches(data, &ns, cwd, threshold, true);
        let ghost res = entries_view(results@);
        proof {
            lemma_query_result_nonempty(res, data@, nv, cwd@, t, true);
        }
        let mut lines: Vec<String> = Vec::new();
        lines.push(results[0].0.clone());
        let r = Ok(lines);
        proof {
            assert(lines_view(lines@) =~= seq![res[0].0]);
            assert(query_result(res, data@, nv, cwd@, t, true));
            assert(answer(r, data@, nv, cwd@, t, complete));
        }
        r
    }
}

/// The completion menu, or the path that a picked or full entry names.
pub fn handle_tab_completion(
    needles: &Vec<String>,
    data: &Database,
    cwd: &String,
    threshold: Option<u32>,
) -> (r: Result<Vec<String>, QueryError>)
    ensures
        needles@.len() == 0 <==> r == Err::<Vec<String>, QueryError>(QueryError::NoNeedles),
        needles@.len() > 0 ==> answer(
            r,
            data@,
            normalized_needles(needles_view(needles@)),
            cwd@,
            threshold_or_default(threshold),
            true,
        ),
{
    find_results(needles, data, cwd, threshold, true)
}

/// The best matching path that exists, or the path that a picked or full
/// entry names.
pub fn handle_jump(needles: &Vec<String>, data: &Database, cwd: &String, threshold: Option<u32>) -> (r:
    Result<Vec<String>, QueryError>)
    ensures
        needles@.len() == 0 <==> r == Err::<Vec<String>, QueryError>(QueryError::NoNeedles),
        needles@.len() > 0 ==> answer(
            r,
            data@,
            normalized_needles(needles_view(needles@)),
            cwd@,
            threshold_or_default(threshold),
            false,
        ),
{
    find_results(needles, data, cwd, threshold, false)
}

/// All entries for the statistics display, weight descending (equal weights:
/// greater path first).
pub fn stats_listing(data: &Database) -> (r: Vec<Entry>)
    ensures
        sorted_as(entries_view(r@), data@),
{
    sort_candidates(data.entries())
}

} // verus!
