//! Small text routines the descriptions are built with: decimal numbers and
//! placeholder substitution.

use vstd::prelude::*;

verus! {

/// The decimal digit character for `d` in `0..10`.
pub open spec fn digit_char(d: int) -> char {
    (48 + d) as char
}

/// The decimal representation of `n`, without leading zeros.
pub open spec fn decimal(n: nat) -> Seq<char>
    decreases n,
{
    if n < 10 {
        seq![digit_char(n as int)]
    } else {
        decimal(n / 10).push(digit_char((n % 10) as int))
    }
}

/// Append the decimal digits of `n` to `out`.
pub fn push_decimal(out: &mut String, n: u32)
    ensures
        final(out)@ == old(out)@ + decimal(n as nat),
    decreases n,
{
    if n >= 10 {
        push_decimal(out, n / 10);
    }
    let digits = "0123456789";
    proof {
        reveal_strlit("0123456789");
    }
    let d = (n % 10) as usize;
    out.append(digits.substring_char(d, d + 1));
    proof {
        assert(digits@.subrange(d as int, d + 1) =~= seq![digit_char(d as int)]);
        if n >= 10 {
            assert(old(out)@ + decimal(n as nat) =~= old(out)@ + decimal((n / 10) as nat) + seq![digit_char((n % 10) as int)]);
        } else {
            assert(decimal(n as nat) == seq![digit_char(n as int)]);
        }
    }
}

/// Append the decimal digits of `n` to `out`.
pub fn push_decimal_usize(out: &mut String, n: usize)
    ensures
        final(out)@ == old(out)@ + decimal(n as nat),
    decreases n,
{
    if n >= 10 {
        push_decimal_usize(out, n / 10);
    }
    let digits = "0123456789";
    proof {
        reveal_strlit("0123456789");
    }
    let d = n % 10;
    out.append(digits.substring_char(d, d + 1));
    proof {
        assert(digits@.subrange(d as int, d + 1) =~= seq![digit_char(d as int)]);
        if n >= 10 {
            assert(old(out)@ + decimal(n as nat) =~= old(out)@ + decimal((n / 10) as nat) + seq![digit_char((n % 10) as int)]);
        } else {
            assert(decimal(n as nat) == seq![digit_char(n as int)]);
        }
    }
}

/// Append the decimal digits of `n` to `out`.
pub fn push_decimal_u128(out: &mut String, n: u128)
    ensures
        final(out)@ == old(out)@ + decimal(n as nat),
    decreases n,
{
    if n >= 10 {
        push_decimal_u128(out, n / 10);
    }
    let digits = "0123456789";
    proof {
        reveal_strlit("0123456789");
    }
    let d = (n % 10) as usize;
    out.append(digits.substring_char(d, d + 1));
    proof {
        assert(digits@.subrange(d as int, d + 1) =~= seq![digit_char(d as int)]);
        if n >= 10 {
            assert(old(out)@ + decimal(n as nat) =~= old(out)@ + decimal((n / 10) as nat) + seq![digit_char((n % 10) as int)]);
        } else {
            assert(decimal(n as nat) == seq![digit_char(n as int)]);
        }
    }
}

/// `v` hundredths written with two decimals, such as `0.90` for 90.
pub open spec fn two_decimals(v: nat) -> Seq<char> {
    decimal(v / 100) + seq!['.', digit_char(((v / 10) % 10) as int), digit_char((v % 10) as int)]
}

/// `num / den` rounded to the nearest hundredth, halves up, in hundredths.
pub open spec fn hundredths(num: nat, den: nat) -> nat {
    if den == 0 { 0 } else { (200 * num + den) / (2 * den) }
}

/// Append `v` hundredths with two decimals.
pub fn push_two_decimals(out: &mut String, v: u128)
    ensures
        final(out)@ == old(out)@ + two_decimals(v as nat),
{
    push_decimal_u128(out, v / 100);
    let digits = "0123456789";
    proof {
        reveal_strlit("0123456789");
        reveal_strlit(".");
    }
    out.append(".");
    let t = ((v / 10) % 10) as usize;
    out.append(digits.substring_char(t, t + 1));
    let u = (v % 10) as usize;
    out.append(digits.substring_char(u, u + 1));
    proof {
        assert(digits@.subrange(t as int, t + 1) =~= seq![digit_char(t as int)]);
        assert(digits@.subrange(u as int, u + 1) =~= seq![digit_char(u as int)]);
        assert(out@ =~= old(out)@ + two_decimals(v as nat));
    }
}

/// `v` tenths written with one decimal, such as `42.5` for 425.
pub open spec fn one_decimal(v: nat) -> Seq<char> {
    decimal(v / 10) + seq!['.', digit_char((v % 10) as int)]
}

/// The share `num / den` as a percentage with one decimal, rounded to the
/// nearest tenth, halves up; over zero it reads `NaN` as float division of
/// nothing by nothing does.
pub open spec fn percent_text(num: nat, den: nat) -> Seq<char> {
    if den == 0 {
        "NaN"@
    } else {
        one_decimal((2000 * num + den) / (2 * den))
    }
}

/// Append the share `num / den` as `percent_text` writes it.
pub fn push_percent(out: &mut String, num: u64, den: u64)
    ensures
        final(out)@ == old(out)@ + percent_text(num as nat, den as nat),
{
    proof {
        reveal_strlit("NaN");
        reveal_strlit(".");
    }
    if den == 0 {
        out.append("NaN");
    } else {
        let v: u128 = (2000 * (num as u128) + den as u128) / (2 * den as u128);
        push_decimal_u128(out, v / 10);
        out.append(".");
        let digits = "0123456789";
        proof {
            reveal_strlit("0123456789");
        }
        let u = (v % 10) as usize;
        out.append(digits.substring_char(u, u + 1));
        proof {
            assert(digits@.subrange(u as int, u + 1) =~= seq![digit_char(u as int)]);
            assert(out@ =~= old(out)@ + percent_text(num as nat, den as nat));
        }
    }
}

/// The decimal representation of `n`.
pub fn decimal_string(n: u32) -> (s: String)
    ensures
        s@ == decimal(n as nat),
{
    let mut s = String::new();
    push_decimal(&mut s, n);
    proof {
        assert(s@ =~= decimal(n as nat));
    }
    s
}

/// `String::push`: appends one character.
#[verifier::external_body]
pub fn push_char(s: &mut String, c: char)
    ensures
        final(s)@ == old(s)@.push(c),
{
    s.push(c)
}

/// `s` with every occurrence of `pat` replaced by `rep`, scanning left to
/// right and never reusing replaced text.
pub open spec fn replaced(s: Seq<char>, pat: Seq<char>, rep: Seq<char>) -> Seq<char>
    decreases s.len(),
{
    if s.len() == 0 {
        s
    } else if pat.len() > 0 && pat.len() <= s.len() && s.subrange(0, pat.len() as int) == pat {
        rep + replaced(s.subrange(pat.len() as int, s.len() as int), pat, rep)
    } else {
        seq![s[0]] + replaced(s.subrange(1, s.len() as int), pat, rep)
    }
}

/// Whether `pat` occurs in `s` at character position `i`.
fn occurs_at(s: &str, pat: &str, i: usize) -> (b: bool)
    requires
        i <= s@.len(),
    ensures
        b == (pat@.len() <= s@.len() - i && s@.subrange(i as int, i + pat@.len()) == pat@),
{
    let n = s.unicode_len();
    let m = pat.unicode_len();
    if m > n - i {
        return false;
    }
    let mut k: usize = 0;
    while k < m
        invariant
            n == s@.len(),
            m == pat@.len(),
            i + m <= n,
            k <= m,
            forall|j: int| 0 <= j < k ==> s@[i + j] == pat@[j],
        decreases m - k,
    {
        if s.get_char(i + k) != pat.get_char(k) {
            proof {
                assert(s@.subrange(i as int, i + m)[k as int] != pat@[k as int]);
            }
            return false;
        }
        k = k + 1;
    }
    proof {
        assert(s@.subrange(i as int, i + m) =~= pat@);
    }
    true
}

/// `s` with every occurrence of the non-empty `pat` replaced by `rep`.
pub fn replace_all(s: &str, pat: &str, rep: &str) -> (r: String)
    requires
        pat@.len() > 0,
    ensures
        r@ == replaced(s@, pat@, rep@),
{
    let n = s.unicode_len();
    let m = pat.unicode_len();
    let mut out = String::new();
    let mut i: usize = 0;
    proof {
        assert(s@.subrange(0, n as int) =~= s@);
        assert(out@ + replaced(s@, pat@, rep@) =~= replaced(s@, pat@, rep@));
    }
    while i < n
        invariant
            n == s@.len(),
            m == pat@.len(),
            m > 0,
            i <= n,
            out@ + replaced(s@.subrange(i as int, n as int), pat@, rep@) == replaced(s@, pat@, rep@),
        decreases n - i,
    {
        let ghost rest = s@.subrange(i as int, n as int);
        if occurs_at(s, pat, i) {
            proof {
                assert(rest.subrange(0, m as int) =~= s@.subrange(i as int, i + m));
                assert(rest.subrange(m as int, rest.len() as int) =~= s@.subrange(i + m, n as int));
            }
            out.append(rep);
            i = i + m;
        } else {
            proof {
                if m <= rest.len() {
                    assert(rest.subrange(0, m as int) =~= s@.subrange(i as int, i + m));
                }
                assert(rest.subrange(1, rest.len() as int) =~= s@.subrange(i + 1, n as int));
                assert(s@.subrange(i as int, i + 1) =~= seq![rest[0]]);
            }
            out.append(s.substring_char(i, i + 1));
            i = i + 1;
        }
    }
    proof {
        assert(s@.subrange(n as int, n as int) =~= Seq::<char>::empty());
        assert(out@ + Seq::<char>::empty() =~= out@);
    }
    out
}

} // verus!
