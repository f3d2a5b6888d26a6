//! The bind-address line of the server configuration text.
//!
//! The configuration is a small TOML-like text: the first line that, after
//! trimming, is neither blank nor a `#` comment nor a `[section]` header and
//! reads `bind_address = <value>` (the value optionally double-quoted, and
//! non-empty after unquoting) supplies the address.

use vstd::prelude::*;

verus! {

/// Whether `c` is Unicode whitespace, the set `str::trim` strips.
pub open spec fn is_ws(c: char) -> bool {
    ||| c == ' '
    ||| c == '\t'
    ||| c == '\n'
    ||| c == '\u{0B}'
    ||| c == '\u{0C}'
    ||| c == '\r'
    ||| c == '\u{85}'
    ||| c == '\u{A0}'
    ||| c == '\u{1680}'
    ||| (('\u{2000}' as u32) <= (c as u32) && (c as u32) <= ('\u{200A}' as u32))
    ||| c == '\u{2028}'
    ||| c == '\u{2029}'
    ||| c == '\u{202F}'
    ||| c == '\u{205F}'
    ||| c == '\u{3000}'
}

/// The index of the first `'\n'` at or after `i`, or the end of `s`.
pub open spec fn line_end_idx(s: Seq<char>, i: int) -> int
    decreases s.len() - i,
    when 0 <= i <= s.len()
{
    if i >= s.len() {
        i
    } else if s[i] == '\n' {
        i
    } else {
        line_end_idx(s, i + 1)
    }
}

proof fn lemma_line_end_bounds(s: Seq<char>, i: int)
    requires
        0 <= i <= s.len(),
    ensures
        i <= line_end_idx(s, i) <= s.len(),
    decreases s.len() - i,
{
    if i < s.len() && s[i] != '\n' {
        lemma_line_end_bounds(s, i + 1);
    }
}

/// The first index in `[lo, hi)` holding a non-whitespace character, or `hi`.
pub open spec fn skip_ws_idx(s: Seq<char>, lo: int, hi: int) -> int
    decreases hi - lo,
    when 0 <= lo <= hi <= s.len()
{
    if lo >= hi {
        lo
    } else if is_ws(s[lo]) {
        skip_ws_idx(s, lo + 1, hi)
    } else {
        lo
    }
}

/// One past the last index in `[lo, hi)` holding a non-whitespace character,
/// or `lo`.
pub open spec fn back_ws_idx(s: Seq<char>, lo: int, hi: int) -> int
    decreases hi - lo,
    when 0 <= lo <= hi <= s.len()
{
    if hi <= lo {
        hi
    } else if is_ws(s[hi - 1]) {
        back_ws_idx(s, lo, hi - 1)
    } else {
        hi
    }
}

/// Whether the trimmed line `[ls, le)` starts with `bind_address`.
pub open spec fn has_bind_address_prefix(s: Seq<char>, ls: int, le: int) -> bool {
    &&& le - ls >= 12
    &&& s[ls] == 'b'
    &&& s[ls + 1] == 'i'
    &&& s[ls + 2] == 'n'
    &&& s[ls + 3] == 'd'
    &&& s[ls + 4] == '_'
    &&& s[ls + 5] == 'a'
    &&& s[ls + 6] == 'd'
    &&& s[ls + 7] == 'd'
    &&& s[ls + 8] == 'r'
    &&& s[ls + 9] == 'e'
    &&& s[ls + 10] == 's'
    &&& s[ls + 11] == 's'
}

/// The half-open index range of the bind-address value on the line `[lo, hi)`
/// of `s`, if that line yields one: the line is trimmed; blank lines, `#`
/// comments and `[` section headers yield nothing; after the `bind_address`
/// key, optional whitespace and `=`, the value is trimmed, stripped of one
/// pair of surrounding double quotes, and must be non-empty.
pub open spec fn parse_line_value(s: Seq<char>, lo: int, hi: int) -> Option<(int, int)>
    recommends
        0 <= lo <= hi <= s.len(),
{
    let ls = skip_ws_idx(s, lo, hi);
    let le = back_ws_idx(s, ls, hi);
    if ls == le {
        None
    } else if s[ls] == '#' || s[ls] == '[' {
        None
    } else if !has_bind_address_prefix(s, ls, le) {
        None
    } else {
        let p = skip_ws_idx(s, ls + 12, le);
        if p == le || s[p] != '=' {
            None
        } else {
            let vs0 = skip_ws_idx(s, p + 1, le);
            let ve0 = back_ws_idx(s, vs0, le);
            let quoted = ve0 - vs0 >= 2 && s[vs0] == '"' && s[ve0 - 1] == '"';
            let vs = if quoted {
                vs0 + 1
            } else {
                vs0
            };
            let ve = if quoted {
                ve0 - 1
            } else {
                ve0
            };
            if vs < ve {
                Some((vs, ve))
            } else {
                None
            }
        }
    }
}

/// The bind-address value found on the first yielding line at or after `i`,
/// scanning line by line; a line's trailing `'\r'` is not part of it.
pub open spec fn parse_bind_from(s: Seq<char>, i: int) -> Option<Seq<char>>
    decreases s.len() - i,
    when 0 <= i <= s.len()
    via parse_bind_from_dec
{
    if i >= s.len() {
        None
    } else {
        let e = line_end_idx(s, i);
        let e2 = if e > i && s[e - 1] == '\r' {
            e - 1
        } else {
            e
        };
        match parse_line_value(s, i, e2) {
            Some(v) => Some(s.subrange(v.0, v.1)),
            None => if e >= s.len() {
                None
            } else {
                parse_bind_from(s, e + 1)
            },
        }
    }
}

#[via_fn]
proof fn parse_bind_from_dec(s: Seq<char>, i: int) {
    if 0 <= i < s.len() {
        lemma_line_end_bounds(s, i);
    }
}

/// Whether `c` is Unicode whitespace.
fn is_ws_exec(c: char) -> (r: bool)
    ensures
        r == is_ws(c),
{
    c == ' ' || c == '\t' || c == '\n' || c == '\u{0B}' || c == '\u{0C}' || c == '\r' || c
        == '\u{85}' || c == '\u{A0}' || c == '\u{1680}' || (('\u{2000}' as u32) <= (c as u32) && (c
        as u32) <= ('\u{200A}' as u32)) || c == '\u{2028}' || c == '\u{2029}' || c == '\u{202F}'
        || c == '\u{205F}' || c == '\u{3000}'
}

#[verifier::loop_isolation(false)]
fn find_line_end(s: &str, from: usize, n: usize) -> (r: usize)
    requires
        n == s@.len(),
        from <= n,
    ensures
        r == line_end_idx(s@, from as int),
        from <= r <= n,
{
    let mut i: usize = from;
    while i < n && s.get_char(i) != '\n'
        invariant
            from <= i <= n,
            line_end_idx(s@, from as int) == line_end_idx(s@, i as int),
        decreases n - i,
    {
        i = i + 1;
    }
    i
}

#[verifier::loop_isolation(false)]
fn skip_ws_exec(s: &str, lo: usize, hi: usize, n: usize) -> (r: usize)
    requires
        n == s@.len(),
        lo <= hi <= n,
    ensures
        r == skip_ws_idx(s@, lo as int, hi as int),
        lo <= r <= hi,
{
    let mut i: usize = lo;
    while i < hi && is_ws_exec(s.get_char(i))
        invariant
            lo <= i <= hi,
            skip_ws_idx(s@, lo as int, hi as int) == skip_ws_idx(s@, i as int, hi as int),
        decreases hi - i,
    {
        i = i + 1;
    }
    i
}

#[verifier::loop_isolation(false)]
fn back_ws_exec(s: &str, lo: usize, hi: usize, n: usize) -> (r: usize)
    requires
        n == s@.len(),
        lo <= hi <= n,
    ensures
        r == back_ws_idx(s@, lo as int, hi as int),
        lo <= r <= hi,
{
    let mut i: usize = hi;
    while i > lo && is_ws_exec(s.get_char(i - 1))
        invariant
            lo <= i <= hi,
            back_ws_idx(s@, lo as int, hi as int) == back_ws_idx(s@, lo as int, i as int),
        decreases i,
    {
        i = i - 1;
    }
    i
}

fn has_prefix_exec(s: &str, ls: usize, le: usize, n: usize) -> (r: bool)
    requires
        n == s@.len(),
        ls <= le <= n,
    ensures
        r == has_bind_address_prefix(s@, ls as int, le as int),
{
    le - ls >= 12 && s.get_char(ls) == 'b' && s.get_char(ls + 1) == 'i' && s.get_char(ls + 2)
        == 'n' && s.get_char(ls + 3) == 'd' && s.get_char(ls + 4) == '_' && s.get_char(ls + 5)
        == 'a' && s.get_char(ls + 6) == 'd' && s.get_char(ls + 7) == 'd' && s.get_char(ls + 8)
        == 'r' && s.get_char(ls + 9) == 'e' && s.get_char(ls + 10) == 's' && s.get_char(ls + 11)
        == 's'
}

/// The bind address configured in `contents`, from the first line that
/// yields one under [`parse_bind_from`]; `None` when no line qualifies.
#[verifier::loop_isolation(false)]
pub fn parse_bind_address(contents: &str) -> (r: Option<String>)
    ensures
        (match r {
            Some(v) => parse_bind_from(contents@, 0) == Some(v@),
            None => parse_bind_from(contents@, 0) is None,
        }),
{
    let n = contents.unicode_len();
    let mut pos: usize = 0;
    loop
        invariant
            pos <= n,
            n == contents@.len(),
            parse_bind_from(contents@, 0) == parse_bind_from(contents@, pos as int),
        decreases n - pos,
    {
        if pos >= n {
            return None;
        }
        let e = find_line_end(contents, pos, n);
        let e2 = if e > pos && contents.get_char(e - 1) == '\r' {
            e - 1
        } else {
            e
        };
        let ls = skip_ws_exec(contents, pos, e2, n);
        let le = back_ws_exec(contents, ls, e2, n);
        let mut val: Option<(usize, usize)> = None;
        if ls == le {
        } else if contents.get_char(ls) == '#' || contents.get_char(ls) == '[' {
        } else if !has_prefix_exec(contents, ls, le, n) {
        } else {
            let p = skip_ws_exec(contents, ls + 12, le, n);
            if p == le || contents.get_char(p) != '=' {
            } else {
                let vs0 = skip_ws_exec(contents, p + 1, le, n);
                let ve0 = back_ws_exec(contents, vs0, le, n);
                let quoted = ve0 - vs0 >= 2 && contents.get_char(vs0) == '"' && contents.get_char(
                    ve0 - 1,
                ) == '"';
                let vs = if quoted {
                    vs0 + 1
                } else {
                    vs0
                };
                let ve = if quoted {
                    ve0 - 1
                } else {
                    ve0
                };
                if vs < ve {
                    val = Some((vs, ve));
                }
            }
        }
        match val {
            Some((vs, ve)) => {
                proof {
                    assert(parse_line_value(contents@, pos as int, e2 as int) == Some(
                        (vs as int, ve as int),
                    ));
                }
                let sub = contents.substring_char(vs, ve);
                return Some(sub.to_owned());
            },
            None => {
                proof {
                    assert(parse_line_value(contents@, pos as int, e2 as int) is None);
                }
                if e >= n {
                    return None;
                }
                pos = e + 1;
            },
        }
    }
}

} // verus!
