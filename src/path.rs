//! The path normalizer, and the joins that build absolute paths.
use crate::text::{chars_of, lemma_split_parts_nonempty, push_char, split_chars, split_parts, SEPARATOR};
use vstd::prelude::*;

verus! {

/// The piece at `i` is a component of the path: not empty, and not `.`
/// unless it opens a relative path.
pub open spec fn is_component(parts: Seq<Seq<char>>, i: int) -> bool {
    parts[i].len() > 0 && (parts[i] != seq!['.'] || i == 0)
}

/// The components among the first `n` pieces, in order.
pub open spec fn components_upto(parts: Seq<Seq<char>>, n: int) -> Seq<Seq<char>>
    decreases n,
{
    if n <= 0 {
        Seq::empty()
    } else if is_component(parts, n - 1) {
        components_upto(parts, n - 1).push(parts[n - 1])
    } else {
        components_upto(parts, n - 1)
    }
}

/// The pieces joined by single separators.
pub open spec fn join_parts(ps: Seq<Seq<char>>) -> Seq<char>
    decreases ps.len(),
{
    if ps.len() == 0 {
        Seq::empty()
    } else if ps.len() == 1 {
        ps[0]
    } else {
        join_parts(ps.drop_last()) + seq![SEPARATOR] + ps.last()
    }
}

pub open spec fn is_absolute(p: Seq<char>) -> bool {
    p.len() > 0 && p[0] == SEPARATOR
}

/// `p` as a key of the store: its root, then its components joined by single
/// separators. Repeated separators, a trailing separator and inner `.`
/// components go; `..` stays.
pub open spec fn normalized(p: Seq<char>) -> Seq<char> {
    let parts = split_parts(p);
    let comps = join_parts(components_upto(parts, parts.len() as int));
    if is_absolute(p) {
        seq![SEPARATOR] + comps
    } else {
        comps
    }
}

/// `tail` appended to `base` as a path: an absolute `tail` replaces `base`,
/// and a separator goes between them unless `base` is empty or ends in one.
pub open spec fn joined(base: Seq<char>, tail: Seq<char>) -> Seq<char> {
    if is_absolute(tail) || base.len() == 0 {
        tail
    } else if base.last() == SEPARATOR {
        base + tail
    } else {
        base + seq![SEPARATOR] + tail
    }
}

/// The lexically cleaned form of a path: `.` components removed, `..`
/// resolved against the component before it, separators collapsed.
pub uninterp spec fn cleaned_of(p: Seq<char>) -> Seq<char>;

/// Relies on `path_clean::clean`, which resolves `.` and `..` components
/// without reading the disk, and returns `.` where nothing is left. The root
/// of an absolute path is never removed (a `..` right after it is dropped),
/// so the result of an absolute path is absolute.
#[verifier::external_body]
fn clean_path(p: &String) -> (r: String)
    ensures
        r@ == cleaned_of(p@),
        r@.len() > 0,
        is_absolute(p@) ==> is_absolute(r@),
{
    path_clean::clean(p.as_str()).to_string_lossy().into_owned()
}

pub(crate) fn append_chars(s: &mut String, cs: &Vec<char>)
    ensures
        final(s)@ == old(s)@ + cs@,
{
    let ghost start = s@;
    let mut i: usize = 0;
    while i < cs.len()
        invariant
            i <= cs@.len(),
            s@ == start + cs@.take(i as int),
        decreases cs.len() - i,
    {
        push_char(s, cs[i]);
        i += 1;
        assert(s@ =~= start + cs@.take(i as int));
    }
    assert(cs@.take(cs@.len() as int) =~= cs@);
}

/// The store key of `path`: its root and components, each separator single
/// and no trailing separator.
pub fn normalize_path(path: &String) -> (r: String)
    ensures
        r@ == normalized(path@),
{
    let cs = chars_of(path.as_str());
    let parts = split_chars(&cs);
    let ghost sp = split_parts(path@);
    proof {
        lemma_split_parts_nonempty(path@);
    }
    let mut r = String::new();
    let absolute = cs.len() > 0 && cs[0] == SEPARATOR;
    if absolute {
        push_char(&mut r, SEPARATOR);
    }
    let ghost prefix = r@;
    let mut count: usize = 0;
    let mut i: usize = 0;
    while i < parts.len()
        invariant
            i <= parts@.len(),
            parts@.len() == sp.len(),
            sp == split_parts(path@),
            forall|k: int| 0 <= k < parts@.len() ==> #[trigger] parts@[k]@ == sp[k],
            count == components_upto(sp, i as int).len(),
            count <= i,
            r@ == prefix + join_parts(components_upto(sp, i as int)),
        decreases parts.len() - i,
    {
        let part = &parts[i];
        let dot = part.len() == 1 && part[0] == '.';
        let keep = part.len() > 0 && (!dot || i == 0);
        proof {
            assert(part@ == sp[i as int]);
            if part@.len() == 1 {
                assert(dot == (sp[i as int] =~= seq!['.']));
            } else {
                assert(sp[i as int] != seq!['.']);
            }
            assert(keep == is_component(sp, i as int));
        }
        if keep {
            let ghost before = components_upto(sp, i as int);
            if count > 0 {
                push_char(&mut r, SEPARATOR);
            }
            append_chars(&mut r, part);
            proof {
                let after = before.push(sp[i as int]);
                assert(after.drop_last() =~= before);
                if before.len() == 0 {
                    assert(join_parts(before) =~= Seq::<char>::empty());
                    assert(r@ =~= prefix + join_parts(after));
                } else {
                    assert(r@ =~= prefix + join_parts(after));
                }
            }
            count += 1;
        }
        i += 1;
    }
    r
}

/// `tail` appended to `base` as a path.
pub fn join_path(base: &String, tail: &String) -> (r: String)
    ensures
        r@ == joined(base@, tail@),
{
    let b = chars_of(base.as_str());
    let t = chars_of(tail.as_str());
    let mut r = String::new();
    if (t.len() > 0 && t[0] == SEPARATOR) || b.len() == 0 {
        append_chars(&mut r, &t);
        proof {
            assert(r@ =~= tail@);
        }
        return r;
    }
    append_chars(&mut r, &b);
    if b[b.len() - 1] != SEPARATOR {
        push_char(&mut r, SEPARATOR);
    }
    append_chars(&mut r, &t);
    proof {
        assert(r@ =~= joined(base@, tail@));
    }
    r
}

/// `path` made absolute against `cwd` and lexically cleaned.
pub fn absolute_path(path: &String, cwd: &String) -> (r: String)
    ensures
        r@ == cleaned_of(joined(cwd@, path@)),
        is_absolute(cwd@) || is_absolute(path@) ==> is_absolute(r@),
{
    let j = join_path(cwd, path);
    clean_path(&j)
}

} // verus!
