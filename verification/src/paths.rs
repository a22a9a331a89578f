//! Unix path manipulation on strings: joining (`PathBuf::join`) and the
//! stem of the final component (`Path::file_stem`).

use vstd::prelude::*;
use crate::text::{chars_of, push_char, push_str, string_from_range};

verus! {

/// `PathBuf::join` on Unix: an absolute `comp` replaces `base`; otherwise
/// `comp` is appended, with a `/` in between unless `base` is empty or
/// already ends with one.
pub open spec fn join_path(base: Seq<char>, comp: Seq<char>) -> Seq<char> {
    if comp.len() > 0 && comp[0] == '/' {
        comp
    } else if base.len() == 0 || base.last() == '/' {
        base + comp
    } else {
        base.push('/') + comp
    }
}

/// Joins `comp` onto `base` the way `Path::join` does on Unix.
pub fn path_join(base: &str, comp: &str) -> (r: String)
    ensures
        r@ == join_path(base@, comp@),
{
    let b = chars_of(base);
    let c = chars_of(comp);
    let mut r = String::new();
    if c.len() > 0 && c[0] == '/' {
        push_str(&mut r, comp);
        assert(r@ =~= comp@);
        return r;
    }
    push_str(&mut r, base);
    if b.len() > 0 && b[b.len() - 1] != '/' {
        push_char(&mut r, '/');
    }
    push_str(&mut r, comp);
    assert(r@ =~= join_path(base@, comp@));
    r
}

/// Index of the last `c` in `s.take(end)`.
pub open spec fn rfind_char_before(s: Seq<char>, c: char, end: int) -> Option<int>
    decreases end,
{
    if end <= 0 {
        None
    } else if s[end - 1] == c {
        Some(end - 1)
    } else {
        rfind_char_before(s, c, end - 1)
    }
}

/// What the backward search for a character finds lies before `end` and is that character.
pub proof fn lemma_rfind_bounds(s: Seq<char>, c: char, end: int)
    requires
        end <= s.len(),
    ensures
        rfind_char_before(s, c, end) matches Some(p) ==> 0 <= p < end && s[p] == c,
    decreases end,
{
    if end > 0 && s[end - 1] != c {
        lemma_rfind_bounds(s, c, end - 1);
    }
}

/// The last component of `s.take(end)` that is neither empty nor `.`:
/// `Path::components` skips empty and `.` components.
pub open spec fn last_component_before(s: Seq<char>, end: int) -> Option<Seq<char>>
    decreases end,
{
    if end <= 0 || end > s.len() {
        None
    } else {
        match rfind_char_before(s, '/', end) {
            Some(slash) => {
                proof {
                    lemma_rfind_bounds(s, '/', end);
                }
                let seg = s.subrange(slash + 1, end);
                if seg.len() == 0 || seg == seq!['.'] {
                    last_component_before(s, slash)
                } else {
                    Some(seg)
                }
            },
            None => {
                let seg = s.take(end);
                if seg == seq!['.'] {
                    None
                } else {
                    Some(seg)
                }
            },
        }
    }
}

/// `Path::file_name`: the final component, unless it is `..` or there is none.
pub open spec fn file_name(s: Seq<char>) -> Option<Seq<char>> {
    match last_component_before(s, s.len() as int) {
        Some(seg) => if seg == seq!['.', '.'] { None } else { Some(seg) },
        None => None,
    }
}

/// `Path::file_stem`: the file name without its extension (the part
/// after its last `.`), unless that `.` is the name's first character.
pub open spec fn file_stem(s: Seq<char>) -> Option<Seq<char>> {
    match file_name(s) {
        Some(name) => match rfind_char_before(name, '.', name.len() as int) {
            Some(d) => if d == 0 { Some(name) } else { Some(name.take(d)) },
            None => Some(name),
        },
        None => None,
    }
}

fn rfind_in(v: &Vec<char>, c: char, end: usize) -> (r: Option<usize>)
    requires
        end <= v.len(),
    ensures
        match r {
            Some(p) => rfind_char_before(v@, c, end as int) == Some(p as int) && p < end,
            None => rfind_char_before(v@, c, end as int) is None,
        },
{
    let mut e = end;
    while e > 0
        invariant
            e <= end <= v.len(),
            rfind_char_before(v@, c, end as int) == rfind_char_before(v@, c, e as int),
        decreases e,
    {
        if v[e - 1] == c {
            return Some(e - 1);
        }
        e = e - 1;
    }
    None
}

/// Bounds `[start, end)` of the last component of `v.take(end0)` that is
/// neither empty nor `.`.
fn last_component_range(v: &Vec<char>, end0: usize) -> (r: Option<(usize, usize)>)
    requires
        end0 <= v.len(),
    ensures
        match r {
            Some((a, b)) => a <= b <= v.len() && last_component_before(v@, end0 as int) == Some(
                v@.subrange(a as int, b as int),
            ),
            None => last_component_before(v@, end0 as int) is None,
        },
{
    let mut end = end0;
    while end > 0
        invariant
            end <= end0 <= v.len(),
            last_component_before(v@, end0 as int) == last_component_before(v@, end as int),
        decreases end,
    {
        match rfind_in(v, '/', end) {
            Some(slash) => {
                let len = end - (slash + 1);
                let is_dot = len == 1 && v[slash + 1] == '.';
                proof {
                    let seg = v@.subrange(slash + 1, end as int);
                    if is_dot {
                        assert(seg =~= seq!['.']);
                    } else if len == 1 {
                        assert(seg[0] != seq!['.'][0]);
                    } else {
                        assert(seg.len() != 1);
                        assert(seg != seq!['.']);
                    }
                }
                if len == 0 || is_dot {
                    end = slash;
                } else {
                    return Some((slash + 1, end));
                }
            },
            None => {
                let is_dot = end == 1 && v[0] == '.';
                proof {
                    let seg = v@.take(end as int);
                    if is_dot {
                        assert(seg =~= seq!['.']);
                    } else if end == 1 {
                        assert(seg[0] != seq!['.'][0]);
                    } else {
                        assert(seg.len() != 1);
                        assert(seg != seq!['.']);
                    }
                }
                if is_dot {
                    return None;
                } else {
                    assert(v@.take(end as int) =~= v@.subrange(0, end as int));
                    return Some((0, end));
                }
            },
        }
    }
    None
}

/// The stem of the final component of `path` (`Path::file_stem`).
pub fn path_file_stem(path: &str) -> (r: Option<String>)
    ensures
        match r {
            Some(stem) => file_stem(path@) == Some(stem@),
            None => file_stem(path@) is None,
        },
{
    let v = chars_of(path);
    match last_component_range(&v, v.len()) {
        Some((a, b)) => {
            let ghost name = v@.subrange(a as int, b as int);
            let is_dotdot = b - a == 2 && v[a] == '.' && v[a + 1] == '.';
            proof {
                if is_dotdot {
                    assert(name =~= seq!['.', '.']);
                } else if b - a == 2 {
                    assert(name[0] != seq!['.', '.'][0] || name[1] != seq!['.', '.'][1]);
                } else {
                    assert(name.len() != 2);
                    assert(name != seq!['.', '.']);
                }
            }
            if is_dotdot {
                return None;
            }
            let name_chars = chars_of(string_from_range(&v, a, b).as_str());
            assert(name_chars@ == name);
            match rfind_in(&name_chars, '.', name_chars.len()) {
                Some(d) => {
                    if d == 0 {
                        Some(string_from_range(&name_chars, 0, name_chars.len()))
                    } else {
                        let s = string_from_range(&name_chars, 0, d);
                        assert(s@ =~= name.take(d as int));
                        Some(s)
                    }
                },
                None => {
                    let s = string_from_range(&name_chars, 0, name_chars.len());
                    assert(s@ =~= name);
                    Some(s)
                },
            }
        },
        None => None,
    }
}

} // verus!
