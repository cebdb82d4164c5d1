//! Query terms: each is a taxonomy id or a scientific name.
use vstd::prelude::*;

use crate::text::{replace_all, replaced};

verus! {

/// Unicode White_Space, as `char::is_whitespace` defines it.
pub open spec fn is_space(c: char) -> bool {
    let u = c as u32;
    (9 <= u <= 13) || u == 32 || u == 0x85 || u == 0xA0 || u == 0x1680 || (0x2000 <= u <= 0x200A)
        || u == 0x2028 || u == 0x2029 || u == 0x202F || u == 0x205F || u == 0x3000
}

pub open spec fn trim_start(s: Seq<char>) -> Seq<char>
    decreases s.len(),
{
    if s.len() > 0 && is_space(s[0]) {
        trim_start(s.drop_first())
    } else {
        s
    }
}

pub open spec fn trim_end(s: Seq<char>) -> Seq<char>
    decreases s.len(),
{
    if s.len() > 0 && is_space(s.last()) {
        trim_end(s.drop_last())
    } else {
        s
    }
}

/// `s` without leading and trailing white space.
pub open spec fn trimmed(s: Seq<char>) -> Seq<char> {
    trim_end(trim_start(s))
}

/// A term as looked up: trimmed, with each `_` read as a space.
pub open spec fn cleaned(s: Seq<char>) -> Seq<char> {
    replaced(trimmed(s), "_"@, " "@)
}

pub open spec fn is_digit(c: char) -> bool {
    48 <= (c as u32) <= 57
}

/// The value of a run of decimal digits.
pub open spec fn digits_value(s: Seq<char>) -> int
    decreases s.len(),
{
    if s.len() == 0 {
        0
    } else {
        digits_value(s.drop_last()) * 10 + ((s.last() as u32) - 48)
    }
}

/// Length of the sign in front of a number: 1 for a leading `+` or `-`.
pub open spec fn sign_len(s: Seq<char>) -> int {
    if s.len() > 0 && (s[0] == '-' || s[0] == '+') {
        1
    } else {
        0
    }
}

/// Every character is a decimal digit.
pub open spec fn all_digits(s: Seq<char>) -> bool {
    forall|i: int| 0 <= i < s.len() ==> is_digit(#[trigger] s[i])
}

/// The `i64` that `s` denotes: an optional `+` or `-`, then one or more
/// decimal digits, with a value in range.
pub open spec fn parsed_id(s: Seq<char>) -> Option<i64> {
    let body = s.subrange(sign_len(s), s.len() as int);
    let v = if s.len() > 0 && s[0] == '-' {
        -digits_value(body)
    } else {
        digits_value(body)
    };
    if body.len() > 0 && all_digits(body) && i64::MIN <= v <= i64::MAX {
        Some(v as i64)
    } else {
        None
    }
}

/// The cleaned terms that are not ids, in order.
pub open spec fn name_terms(ts: Seq<Seq<char>>) -> Seq<Seq<char>>
    decreases ts.len(),
{
    if ts.len() == 0 {
        Seq::empty()
    } else if parsed_id(cleaned(ts.last())) is None {
        name_terms(ts.drop_last()).push(cleaned(ts.last()))
    } else {
        name_terms(ts.drop_last())
    }
}

/// Number of terms before position `i` that are names.
pub open spec fn names_before(p: Seq<Option<i64>>, i: int) -> nat
    decreases i,
{
    if i <= 0 {
        0
    } else {
        names_before(p, i - 1) + if p[i - 1] is None {
            1nat
        } else {
            0nat
        }
    }
}

fn is_space_char(c: char) -> (r: bool)
    ensures
        r == is_space(c),
{
    let u = c as u32;
    (9 <= u && u <= 13) || u == 32 || u == 0x85 || u == 0xA0 || u == 0x1680 || (0x2000 <= u && u
        <= 0x200A) || u == 0x2028 || u == 0x2029 || u == 0x202F || u == 0x205F || u == 0x3000
}

/// `s` without leading and trailing white space.
pub fn trim(s: &str) -> (r: &str)
    ensures
        r@ == trimmed(s@),
{
    let n = s.unicode_len();
    let mut a: usize = 0;
    assert(s@.subrange(0, n as int) =~= s@);
    while a < n && is_space_char(s.get_char(a))
        invariant
            n == s@.len(),
            a <= n,
            trim_start(s@) == trim_start(s@.subrange(a as int, n as int)),
        decreases n - a,
    {
        assert(s@.subrange(a as int, n as int).drop_first() =~= s@.subrange(a + 1, n as int));
        a = a + 1;
    }
    let mut b: usize = n;
    while b > a && is_space_char(s.get_char(b - 1))
        invariant
            n == s@.len(),
            a <= b <= n,
            trimmed(s@) == trim_end(s@.subrange(a as int, b as int)),
        decreases b,
    {
        assert(s@.subrange(a as int, b as int).drop_last() =~= s@.subrange(a as int, b - 1));
        b = b - 1;
    }
    s.substring_char(a, b)
}

/// Trim a term and read each `_` as a space.
pub fn clean_term(term: &str) -> (r: String)
    ensures
        r@ == cleaned(term@),
{
    replace_all(trim(term), "_", " ")
}

/// Read `s` as an `i64` in decimal, with an optional sign.
pub fn parse_id(s: &str) -> (r: Option<i64>)
    ensures
        r == parsed_id(s@),
{
    let n = s.unicode_len();
    let mut start: usize = 0;
    let mut neg = false;
    if n > 0 {
        let c = s.get_char(0);
        if c == '-' {
            neg = true;
            start = 1;
        } else if c == '+' {
            start = 1;
        }
    }
    assert(start == sign_len(s@));
    assert(neg == (s@.len() > 0 && s@[0] == '-'));
    let ghost body = s@.subrange(start as int, n as int);
    if start == n {
        return None;
    }
    let cap: i128 = 9223372036854775809;
    let mut acc: i128 = 0;
    let mut i: usize = start;
    assert(body.subrange(0, 0) =~= Seq::<char>::empty());
    while i < n
        invariant
            n == s@.len(),
            start <= i <= n,
            body == s@.subrange(start as int, n as int),
            start == sign_len(s@),
            neg == (s@.len() > 0 && s@[0] == '-'),
            cap == 9223372036854775809,
            0 <= acc <= cap,
            forall|k: int| 0 <= k < i - start ==> is_digit(#[trigger] body[k]),
            acc == if digits_value(body.subrange(0, i - start)) < cap {
                digits_value(body.subrange(0, i - start))
            } else {
                cap as int
            },
            digits_value(body.subrange(0, i - start)) >= 0,
        decreases n - i,
    {
        let c = s.get_char(i);
        let u = c as u32;
        if u < 48 || u > 57 {
            assert(!is_digit(body[i - start]));
            assert(!all_digits(body));
            return None;
        }
        let d = (u - 48) as i128;
        let next = acc * 10 + d;
        acc = if next < cap {
            next
        } else {
            cap
        };
        assert(body.subrange(0, i + 1 - start).drop_last() =~= body.subrange(0, i - start));
        i = i + 1;
    }
    assert(body.subrange(0, n - start) =~= body);
    if neg {
        if acc <= 9223372036854775808 {
            Some((0 - acc) as i64)
        } else {
            None
        }
    } else {
        if acc <= 9223372036854775807 {
            Some(acc as i64)
        } else {
            None
        }
    }
}

/// For each term, its id when it reads as one, and, in order, the cleaned
/// terms that are names to look up.
pub fn split_terms(terms: &[String]) -> (r: (Vec<Option<i64>>, Vec<String>))
    ensures
        r.0@.len() == terms@.len(),
        forall|i: int| 0 <= i < terms@.len() ==> #[trigger] r.0@[i] == parsed_id(cleaned(terms@[i]@)),
        r.1@.map_values(|s: String| s@) == name_terms(terms@.map_values(|s: String| s@)),
{
    let ghost ts = terms@.map_values(|s: String| s@);
    let mut ids: Vec<Option<i64>> = Vec::new();
    let mut names: Vec<String> = Vec::new();
    let mut i: usize = 0;
    while i < terms.len()
        invariant
            i <= terms@.len(),
            ts == terms@.map_values(|s: String| s@),
            ids@.len() == i,
            forall|k: int| 0 <= k < i ==> #[trigger] ids@[k] == parsed_id(cleaned(terms@[k]@)),
            names@.map_values(|s: String| s@) == name_terms(ts.subrange(0, i as int)),
        decreases terms@.len() - i,
    {
        let t = clean_term(terms[i].as_str());
        let id = parse_id(t.as_str());
        let ghost pre = ts.subrange(0, i + 1);
        assert(pre.drop_last() =~= ts.subrange(0, i as int));
        assert(pre.last() == terms@[i as int]@);
        match id {
            Some(_) => {},
            None => {
                names.push(t);
                assert(names@.map_values(|s: String| s@) =~= name_terms(pre));
            },
        }
        ids.push(id);
        i = i + 1;
    }
    assert(ts.subrange(0, terms@.len() as int) =~= ts);
    (ids, names)
}

/// Ids in the order of the terms: each term's own id, or for the k-th name
/// the k-th of `name_ids` (`-1` when `name_ids` has fewer entries).
pub fn fill_ids(parsed: &[Option<i64>], name_ids: &[i64]) -> (r: Vec<i64>)
    ensures
        r@.len() == parsed@.len(),
        forall|i: int|
            0 <= i < parsed@.len() ==> #[trigger] r@[i] == match parsed@[i] {
                Some(id) => id,
                None => if names_before(parsed@, i) < name_ids@.len() {
                    name_ids@[names_before(parsed@, i) as int]
                } else {
                    -1i64
                },
            },
{
    let mut r: Vec<i64> = Vec::new();
    let mut k: usize = 0;
    let mut i: usize = 0;
    while i < parsed.len()
        invariant
            i <= parsed@.len(),
            r@.len() == i,
            k == names_before(parsed@, i as int),
            k <= i,
            forall|j: int|
                0 <= j < i ==> #[trigger] r@[j] == match parsed@[j] {
                    Some(id) => id,
                    None => if names_before(parsed@, j) < name_ids@.len() {
                        name_ids@[names_before(parsed@, j) as int]
                    } else {
                        -1i64
                    },
                },
        decreases parsed@.len() - i,
    {
        match parsed[i] {
            Some(id) => {
                r.push(id);
            },
            None => {
                if k < name_ids.len() {
                    r.push(name_ids[k]);
                } else {
                    r.push(-1);
                }
                k = k + 1;
            },
        }
        i = i + 1;
    }
    r
}

} // verus!
