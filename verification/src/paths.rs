//! A plain-string model of filesystem paths.
//!
//! Paths are UTF-8 strings whose components are separated by `/`. The
//! functions here are the path arithmetic the cache layout is built on:
//! joining a component onto a base path, stepping from a path to its
//! parent the way an ancestor walk sees it, and rendering a numeric user
//! id as decimal digits for the per-user fallback directory name.

use vstd::prelude::*;

verus! {

/// The sequence of characters obtained by joining `comp` onto `base` with
/// a single separator.
pub open spec fn spec_join(base: Seq<char>, comp: Seq<char>) -> Seq<char> {
    base + seq!['/'] + comp
}

/// Joins one path component onto a base path with a `/` separator.
pub fn join_path(base: &str, comp: &str) -> (r: String)
    ensures
        r@ == spec_join(base@, comp@),
{
    proof {
        reveal_strlit("/");
        assert("/"@ =~= seq!['/']);
    }
    let mut r = base.to_owned();
    r.append("/");
    r.append(comp);
    proof {
        assert(r@ =~= spec_join(base@, comp@));
    }
    r
}

/// The index before which the trailing run of `/` characters of `s`
/// starts; `0` when `s` is empty or all separators.
pub open spec fn trim_end(s: Seq<char>) -> int
    decreases s.len(),
{
    if s.len() == 0 {
        0
    } else if s.last() == '/' {
        trim_end(s.drop_last())
    } else {
        s.len() as int
    }
}

/// The index just after the last `/` within `s[..e]`; `0` when `s[..e]`
/// holds no separator.
pub open spec fn last_sep(s: Seq<char>, e: int) -> int
    decreases e,
{
    if e <= 0 {
        0
    } else if s[e - 1] == '/' {
        e
    } else {
        last_sep(s, e - 1)
    }
}

/// The parent of a path, the way an ancestor walk steps upward: the last
/// component and any trailing separators are removed. The root `/` and
/// the empty path have no parent; a bare relative component steps to the
/// empty path first.
pub open spec fn spec_parent(s: Seq<char>) -> Option<Seq<char>> {
    let e = trim_end(s);
    if e == 0 {
        None
    } else {
        let i = last_sep(s, e);
        if i == 0 {
            Some(Seq::empty())
        } else {
            let j = trim_end(s.subrange(0, i - 1));
            if j == 0 {
                Some(seq!['/'])
            } else {
                Some(s.subrange(0, j))
            }
        }
    }
}

/// Returns the parent of `s`, or `None` when `s` is the root or empty.
/// The parent is always strictly shorter than `s`, so repeating the step
/// terminates.
pub fn parent_path(s: &str) -> (r: Option<String>)
    ensures
        r is Some <==> spec_parent(s@) is Some,
        r matches Some(p) ==> spec_parent(s@) matches Some(q) && p@ == q && p@.len() < s@.len(),
{
    let n = s.unicode_len();
    let mut e: usize = n;
    proof {
        assert(s@.subrange(0, n as int) =~= s@);
    }
    while e > 0 && s.get_char(e - 1) == '/'
        invariant
            e <= n,
            n == s@.len(),
            trim_end(s@) == trim_end(s@.subrange(0, e as int)),
        decreases e,
    {
        proof {
            let pre = s@.subrange(0, e as int);
            assert(pre.last() == s@[e - 1]);
            assert(pre.drop_last() =~= s@.subrange(0, e - 1));
        }
        e -= 1;
    }
    proof {
        if e == 0 {
            assert(trim_end(s@) == 0);
        } else {
            let pre = s@.subrange(0, e as int);
            assert(pre.last() == s@[e - 1]);
            assert(trim_end(s@) == e);
        }
    }
    if e == 0 {
        return None;
    }
    let mut i: usize = e;
    while i > 0 && s.get_char(i - 1) != '/'
        invariant
            i <= e <= n,
            n == s@.len(),
            last_sep(s@, e as int) == last_sep(s@, i as int),
        decreases i,
    {
        i -= 1;
    }
    proof {
        assert(last_sep(s@, e as int) == i);
    }
    if i == 0 {
        return Some(String::new());
    }
    let mut j: usize = i - 1;
    proof {
        assert(s@.subrange(0, i - 1).subrange(0, j as int) =~= s@.subrange(0, j as int));
    }
    while j > 0 && s.get_char(j - 1) == '/'
        invariant
            j <= i - 1 < e <= n,
            n == s@.len(),
            trim_end(s@.subrange(0, i - 1)) == trim_end(s@.subrange(0, j as int)),
        decreases j,
    {
        proof {
            let pre = s@.subrange(0, j as int);
            assert(pre.last() == s@[j - 1]);
            assert(pre.drop_last() =~= s@.subrange(0, j - 1));
        }
        j -= 1;
    }
    proof {
        if j == 0 {
            assert(trim_end(s@.subrange(0, i - 1)) == 0);
        } else {
            let pre = s@.subrange(0, j as int);
            assert(pre.last() == s@[j - 1]);
            assert(trim_end(s@.subrange(0, i - 1)) == j);
        }
    }
    if j == 0 {
        proof {
            reveal_strlit("/");
            assert("/"@ =~= seq!['/']);
        }
        return Some("/".to_owned());
    }
    Some(s.substring_char(0, j).to_owned())
}

/// The character for one decimal digit.
pub open spec fn dec_digit(n: nat) -> char {
    if n == 0 {
        '0'
    } else if n == 1 {
        '1'
    } else if n == 2 {
        '2'
    } else if n == 3 {
        '3'
    } else if n == 4 {
        '4'
    } else if n == 5 {
        '5'
    } else if n == 6 {
        '6'
    } else if n == 7 {
        '7'
    } else if n == 8 {
        '8'
    } else {
        '9'
    }
}

/// The decimal rendering of a natural number, most significant digit
/// first, with no leading zeros except for zero itself.
pub open spec fn spec_decimal(n: nat) -> Seq<char>
    decreases n,
{
    if n < 10 {
        seq![dec_digit(n)]
    } else {
        spec_decimal(n / 10).push(dec_digit(n % 10))
    }
}

fn dec_digit_str(d: u32) -> (r: &'static str)
    requires
        d < 10,
    ensures
        r@ == seq![dec_digit(d as nat)],
{
    let r = match d {
        0 => "0",
        1 => "1",
        2 => "2",
        3 => "3",
        4 => "4",
        5 => "5",
        6 => "6",
        7 => "7",
        8 => "8",
        _ => "9",
    };
    proof {
        reveal_strlit("0");
        reveal_strlit("1");
        reveal_strlit("2");
        reveal_strlit("3");
        reveal_strlit("4");
        reveal_strlit("5");
        reveal_strlit("6");
        reveal_strlit("7");
        reveal_strlit("8");
        reveal_strlit("9");
        assert(r@ =~= seq![dec_digit(d as nat)]);
    }
    r
}

/// Renders a numeric user id in decimal.
pub fn u32_decimal(n: u32) -> (r: String)
    ensures
        r@ == spec_decimal(n as nat),
    decreases n,
{
    if n < 10 {
        dec_digit_str(n).to_owned()
    } else {
        let mut s = u32_decimal(n / 10);
        s.append(dec_digit_str(n % 10));
        proof {
            assert(s@ =~= spec_decimal(n as nat));
        }
        s
    }
}

} // verus!
