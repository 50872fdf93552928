//! File-system paths as text, with `/` as the separator: joining, and the
//! final component's name and stem.
use crate::text::{
    chars_of, find_last_char_before, last_index, push_char, push_chars, push_str, range_is,
};
use vstd::prelude::*;

verus! {

/// Whether a path is absolute: it begins at the root `/`.
pub open spec fn is_absolute_path(p: Seq<char>) -> bool {
    p.len() > 0 && p[0] == '/'
}

/// `base` joined with `p`: `p` itself when absolute; otherwise `base`, then a
/// `/` unless `base` is empty or already ends with one, then `p`.
pub open spec fn join_path(base: Seq<char>, p: Seq<char>) -> Seq<char> {
    if is_absolute_path(p) {
        p
    } else if base.len() == 0 || base.last() == '/' {
        base + p
    } else {
        base + seq!['/'] + p
    }
}

/// Joins `p` onto `base`, as `Path::join` does with `/` separators.
pub fn join(base: &str, p: &str) -> (r: String)
    ensures
        r@ == join_path(base@, p@),
{
    let pv = chars_of(p);
    if pv.len() > 0 && pv[0] == '/' {
        let mut r = String::new();
        push_str(&mut r, p);
        assert(r@ =~= p@);
        return r;
    }
    let bv = chars_of(base);
    let mut r = String::new();
    push_str(&mut r, base);
    if bv.len() > 0 && bv[bv.len() - 1] != '/' {
        push_char(&mut r, '/');
    }
    push_str(&mut r, p);
    r
}

/// The final component of a path: the last piece between `/`s that is
/// neither empty nor `.`; none when that piece is `..` or there is no piece.
pub open spec fn file_name(p: Seq<char>) -> Option<Seq<char>>
    decreases p.len(),
{
    let k = last_index(p, '/');
    let piece = p.subrange(k + 1, p.len() as int);
    if piece.len() == 0 || piece == "."@ {
        if k < 0 {
            None
        } else {
            proof {
                lemma_last_index_bound(p, '/');
            }
            file_name(p.subrange(0, k))
        }
    } else if piece == ".."@ {
        None
    } else {
        Some(piece)
    }
}

/// `last_index` is -1 or a position in `s`.
pub proof fn lemma_last_index_bound(s: Seq<char>, c: char)
    ensures
        -1 <= last_index(s, c) < s.len(),
    decreases s.len(),
{
    if s.len() > 0 && s.last() != c {
        lemma_last_index_bound(s.drop_last(), c);
    }
}

/// The stem of a file name: the name up to its last `.`, unless it has none
/// or its only `.` is its first character.
pub open spec fn stem_of(name: Seq<char>) -> Seq<char> {
    let k = last_index(name, '.');
    if k <= 0 {
        name
    } else {
        name.subrange(0, k)
    }
}

/// The stem of a path's final component.
pub open spec fn file_stem(p: Seq<char>) -> Option<Seq<char>> {
    match file_name(p) {
        Some(n) => Some(stem_of(n)),
        None => None,
    }
}

/// Bounds of the final component of `v`, as `Path::file_name` finds it.
fn file_name_bounds(v: &[char]) -> (r: Option<(usize, usize)>)
    ensures
        match r {
            Some((a, b)) => a <= b <= v@.len() && file_name(v@) == Some(
                v@.subrange(a as int, b as int),
            ),
            None => file_name(v@) is None,
        },
{
    let mut end = v.len();
    assert(v@.subrange(0, end as int) =~= v@);
    loop
        invariant
            end <= v@.len(),
            file_name(v@) == file_name(v@.subrange(0, end as int)),
        decreases end,
    {
        let ghost p = v@.subrange(0, end as int);
        let k = find_last_char_before(v, end, '/');
        let start = match k {
            Some(k) => k + 1,
            None => 0,
        };
        proof {
            let kk = last_index(p, '/');
            assert(p.subrange(kk + 1, p.len() as int) =~= v@.subrange(start as int, end as int));
        }
        if start == end || range_is(v, start, end, ".") {
            match k {
                None => {
                    return None;
                },
                Some(k) => {
                    proof {
                        assert(p.subrange(0, k as int) =~= v@.subrange(0, k as int));
                    }
                    end = k;
                },
            }
        } else if range_is(v, start, end, "..") {
            return None;
        } else {
            return Some((start, end));
        }
    }
}

/// The final component of a path, if it has one.
pub fn path_file_name(p: &str) -> (r: Option<String>)
    ensures
        match r {
            Some(s) => file_name(p@) == Some(s@),
            None => file_name(p@) is None,
        },
{
    let v = chars_of(p);
    match file_name_bounds(&v) {
        Some((a, b)) => {
            let mut s = String::new();
            push_chars(&mut s, &v, a, b);
            assert(s@ =~= v@.subrange(a as int, b as int));
            Some(s)
        },
        None => None,
    }
}

/// The stem of a path's final component, as `Path::file_stem` gives it.
pub fn path_file_stem(p: &str) -> (r: Option<String>)
    ensures
        match r {
            Some(s) => file_stem(p@) == Some(s@),
            None => file_stem(p@) is None,
        },
{
    let v = chars_of(p);
    match file_name_bounds(&v) {
        Some((a, b)) => {
            let ghost name = v@.subrange(a as int, b as int);
            let w = slice_chars(&v, a, b);
            assert(w@ == name);
            let k = crate::text::find_last_char(&w, '.');
            let mut s = String::new();
            match k {
                Some(k) => {
                    if k == 0 {
                        push_chars(&mut s, &w, 0, w.len());
                    } else {
                        push_chars(&mut s, &w, 0, k);
                    }
                },
                None => {
                    push_chars(&mut s, &w, 0, w.len());
                },
            }
            assert(w@.subrange(0, w@.len() as int) =~= w@);
            assert(s@ =~= stem_of(name));
            Some(s)
        },
        None => None,
    }
}

fn slice_chars(v: &[char], a: usize, b: usize) -> (w: Vec<char>)
    requires
        a <= b <= v@.len(),
    ensures
        w@ == v@.subrange(a as int, b as int),
{
    let mut w: Vec<char> = Vec::new();
    let mut i = a;
    while i < b
        invariant
            a <= i <= b <= v@.len(),
            w@ == v@.subrange(a as int, i as int),
        decreases b - i,
    {
        w.push(v[i]);
        i = i + 1;
        assert(w@ =~= v@.subrange(a as int, i as int));
    }
    w
}

} // verus!
