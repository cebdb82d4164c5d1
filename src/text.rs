//! Plain text helpers on character sequences: decimal rendering of integers
//! and literal, left-to-right substring replacement.
use vstd::prelude::*;

verus! {

/// The character of the decimal digit `d` (`0 <= d < 10`).
pub open spec fn digit_char(d: int) -> char {
    "0123456789"@[d]
}

/// Decimal digits of a natural number, most significant first, no leading zeros.
pub open spec fn digits_of(n: nat) -> Seq<char>
    decreases n,
{
    if n < 10 {
        seq![digit_char(n as int)]
    } else {
        digits_of(n / 10) + seq![digit_char((n % 10) as int)]
    }
}

/// Decimal rendering of an integer, with a leading `-` when negative.
pub open spec fn decimal(n: int) -> Seq<char> {
    if n < 0 {
        seq!['-'] + digits_of((-n) as nat)
    } else {
        digits_of(n as nat)
    }
}

/// `s` with every non-overlapping occurrence of `pat`, scanned from the left,
/// replaced by `rep`.  An empty pattern leaves `s` unchanged.
pub open spec fn replaced(s: Seq<char>, pat: Seq<char>, rep: Seq<char>) -> Seq<char>
    decreases s.len(),
{
    if s.len() == 0 {
        s
    } else if pat.len() > 0 && pat.len() <= s.len() && s.subrange(0, pat.len() as int) == pat {
        rep + replaced(s.subrange(pat.len() as int, s.len() as int), pat, rep)
    } else {
        seq![s[0]] + replaced(s.subrange(1, s.len() as int), pat, rep)
    }
}

fn digit_str(d: u64) -> (r: &'static str)
    requires
        d < 10,
    ensures
        r@ == seq![digit_char(d as int)],
{
    let all = "0123456789";
    proof {
        reveal_strlit("0123456789");
    }
    let r = all.substring_char(d as usize, d as usize + 1);
    assert(r@ =~= seq![digit_char(d as int)]);
    r
}

fn digits(n: u64) -> (r: String)
    ensures
        r@ == digits_of(n as nat),
    decreases n,
{
    if n < 10 {
        String::from_str(digit_str(n))
    } else {
        let mut s = digits(n / 10);
        s.append(digit_str(n % 10));
        s
    }
}

/// Decimal rendering of `n`.
pub fn decimal_string(n: i64) -> (r: String)
    ensures
        r@ == decimal(n as int),
{
    if n < 0 {
        let mag: u64 = (0i128 - n as i128) as u64;
        let mut s = String::from_str("-");
        proof {
            reveal_strlit("-");
        }
        let d = digits(mag);
        s.append(d.as_str());
        assert(s@ =~= decimal(n as int));
        s
    } else {
        digits(n as u64)
    }
}

/// True when `pat` occurs in `s` at character position `i`.
fn occurs_at(s: &str, i: usize, pat: &str, n: usize, m: usize) -> (r: bool)
    requires
        n == s@.len(),
        m == pat@.len(),
        i <= n,
    ensures
        r == (i + m <= n && s@.subrange(i as int, i + m) == pat@),
{
    if m > n - i {
        return false;
    }
    let mut k: usize = 0;
    while k < m
        invariant
            i + m <= n,
            n == s@.len(),
            m == pat@.len(),
            k <= m,
            forall|j: int| 0 <= j < k ==> s@[i + j] == pat@[j],
        decreases m - k,
    {
        if s.get_char(i + k) != pat.get_char(k) {
            assert(s@.subrange(i as int, i + m)[k as int] != pat@[k as int]);
            return false;
        }
        k = k + 1;
    }
    assert(s@.subrange(i as int, i + m) =~= pat@);
    true
}

/// Replace every non-overlapping occurrence of `pat` in `s` (scanning from the
/// left) by `rep`.
pub fn replace_all(s: &str, pat: &str, rep: &str) -> (r: String)
    ensures
        r@ == replaced(s@, pat@, rep@),
{
    let n = s.unicode_len();
    let m = pat.unicode_len();
    let mut out = String::new();
    if m == 0 {
        out.append(s);
        proof {
            lemma_replaced_empty_pattern(s@, pat@, rep@);
        }
        return out;
    }
    let mut start: usize = 0;
    let mut i: usize = 0;
    assert(s@.subrange(0, 0) =~= Seq::<char>::empty());
    assert(s@.subrange(0, n as int) =~= s@);
    assert(out@ + Seq::<char>::empty() =~= out@);
    while i < n
        invariant
            n == s@.len(),
            m == pat@.len(),
            m > 0,
            start <= i <= n,
            replaced(s@, pat@, rep@) == out@ + s@.subrange(start as int, i as int) + replaced(
                s@.subrange(i as int, n as int),
                pat@,
                rep@,
            ),
        decreases n - i,
    {
        let ghost rest = s@.subrange(i as int, n as int);
        if occurs_at(s, i, pat, n, m) {
            assert(rest.subrange(0, m as int) =~= s@.subrange(i as int, i + m));
            assert(rest.subrange(m as int, rest.len() as int) =~= s@.subrange(
                i + m,
                n as int,
            ));
            out.append(s.substring_char(start, i));
            out.append(rep);
            i = i + m;
            start = i;
            assert(s@.subrange(start as int, i as int) =~= Seq::<char>::empty());
        } else {
            proof {
                if m <= rest.len() {
                    assert(rest.subrange(0, m as int) =~= s@.subrange(i as int, i + m));
                }
            }
            assert(rest.subrange(1, rest.len() as int) =~= s@.subrange(i + 1, n as int));
            assert(s@.subrange(start as int, i as int) + seq![rest[0]] =~= s@.subrange(
                start as int,
                i + 1,
            ));
            i = i + 1;
        }
    }
    out.append(s.substring_char(start, n));
    assert(s@.subrange(n as int, n as int) =~= Seq::<char>::empty());
    out
}

proof fn lemma_replaced_empty_pattern(s: Seq<char>, pat: Seq<char>, rep: Seq<char>)
    requires
        pat.len() == 0,
    ensures
        replaced(s, pat, rep) == s,
    decreases s.len(),
{
    if s.len() > 0 {
        lemma_replaced_empty_pattern(s.subrange(1, s.len() as int), pat, rep);
        assert(seq![s[0]] + s.subrange(1, s.len() as int) =~= s);
    }
}

} // verus!
