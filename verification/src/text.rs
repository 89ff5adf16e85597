//! Character-level string helpers: equality, prefix tests, suffix taking,
//! and decimal formatting and parsing for `Content-Length` values.

use vstd::prelude::*;

verus! {

use vstd::string::{StrSliceExecFns, StringExecFns};

/// True when `p` is a prefix of `s`.
pub open spec fn has_prefix(s: Seq<char>, p: Seq<char>) -> bool {
    p.len() <= s.len() && s.take(p.len() as int) == p
}

/// Character-by-character string equality.
pub fn str_eq(a: &str, b: &str) -> (r: bool)
    ensures
        r == (a@ == b@),
{
    let alen = a.unicode_len();
    let blen = b.unicode_len();
    if alen != blen {
        return false;
    }
    let mut i: usize = 0;
    while i < alen
        invariant
            i <= alen,
            alen == a@.len(),
            blen == b@.len(),
            alen == blen,
            forall|k: int| 0 <= k < i ==> a@[k] == b@[k],
        decreases alen - i,
    {
        if a.get_char(i) != b.get_char(i) {
            return false;
        }
        i = i + 1;
    }
    proof {
        assert(a@ =~= b@);
    }
    true
}

/// Character-by-character prefix test.
pub fn str_has_prefix(s: &str, p: &str) -> (r: bool)
    ensures
        r == has_prefix(s@, p@),
{
    let plen = p.unicode_len();
    let slen = s.unicode_len();
    if plen > slen {
        return false;
    }
    let mut i: usize = 0;
    while i < plen
        invariant
            i <= plen,
            plen == p@.len(),
            slen == s@.len(),
            plen <= slen,
            forall|k: int| 0 <= k < i ==> s@[k] == p@[k],
        decreases plen - i,
    {
        if s.get_char(i) != p.get_char(i) {
            proof {
                assert(s@.take(plen as int)[i as int] == s@[i as int]);
            }
            return false;
        }
        i = i + 1;
    }
    proof {
        assert(s@.take(plen as int) =~= p@);
    }
    true
}

/// The characters of `s` from position `from` on, as an owned string.
pub fn str_suffix(s: &str, from: usize) -> (r: String)
    requires
        from <= s@.len(),
    ensures
        r@ == s@.skip(from as int),
{
    let len = s.unicode_len();
    let suffix = s.substring_char(from, len);
    proof {
        assert(suffix@ =~= s@.skip(from as int));
    }
    suffix.to_owned()
}

/// The decimal digit characters, most significant first, of `n`.
pub open spec fn dec_digits(n: nat) -> Seq<char>
    decreases n,
{
    if n < 10 {
        seq![digit_char(n % 10)]
    } else {
        dec_digits(n / 10) + seq![digit_char(n % 10)]
    }
}

pub open spec fn digit_char(d: nat) -> char {
    if d == 0 {
        '0'
    } else if d == 1 {
        '1'
    } else if d == 2 {
        '2'
    } else if d == 3 {
        '3'
    } else if d == 4 {
        '4'
    } else if d == 5 {
        '5'
    } else if d == 6 {
        '6'
    } else if d == 7 {
        '7'
    } else if d == 8 {
        '8'
    } else {
        '9'
    }
}

pub open spec fn is_digit(c: char) -> bool {
    '0' <= c <= '9'
}

/// True when `s` is a non-empty run of decimal digits.
pub open spec fn is_dec_digits(s: Seq<char>) -> bool {
    s.len() >= 1 && forall|i: int| 0 <= i < s.len() ==> is_digit(#[trigger] s[i])
}

pub open spec fn digit_val(c: char) -> nat {
    (c as int - 48) as nat
}

/// The number the digit characters of `s` stand for, most significant first.
pub open spec fn dec_value(s: Seq<char>) -> nat
    decreases s.len(),
{
    if s.len() == 0 {
        0
    } else {
        dec_value(s.drop_last()) * 10 + digit_val(s.last())
    }
}

pub proof fn lemma_digit_char_val(d: nat)
    requires
        d < 10,
    ensures
        digit_val(digit_char(d)) == d,
{
}

/// Formatting then reading a number gives the number back.
pub proof fn lemma_dec_digits_value(n: nat)
    ensures
        dec_value(dec_digits(n)) == n,
    decreases n,
{
    vstd::arithmetic::div_mod::lemma_fundamental_div_mod(n as int, 10);
    lemma_digit_char_val(n % 10);
    let s = dec_digits(n);
    if n < 10 {
        assert(s =~= seq![digit_char(n % 10)]);
        assert(s.drop_last() =~= Seq::<char>::empty());
        assert(s.last() == digit_char(n % 10));
        assert(dec_value(s) == dec_value(Seq::<char>::empty()) * 10 + digit_val(
            digit_char(n % 10),
        ));
        assert(dec_value(Seq::<char>::empty()) == 0);
    } else {
        lemma_dec_digits_value(n / 10);
        assert(s == dec_digits(n / 10) + seq![digit_char(n % 10)]);
        assert(s.drop_last() =~= dec_digits(n / 10));
        assert(s.last() == digit_char(n % 10));
        assert(dec_value(s) == dec_value(dec_digits(n / 10)) * 10 + digit_val(
            digit_char(n % 10),
        ));
    }
}

fn digit_str(d: usize) -> (r: &'static str)
    requires
        d < 10,
    ensures
        r@ =~= seq![digit_char(d as nat)],
{
    proof {
        reveal_strlit("0");
        reveal_strlit("1");
        reveal_strlit("2");
        reveal_strlit("3");
        reveal_strlit("4");
        reveal_strlit("5");
        reveal_strlit("6");
        reveal_strlit("7");
        reveal_strlit("8");
        reveal_strlit("9");
    }
    match d {
        0 => "0",
        1 => "1",
        2 => "2",
        3 => "3",
        4 => "4",
        5 => "5",
        6 => "6",
        7 => "7",
        8 => "8",
        _ => "9",
    }
}

/// The digit characters of `rev`, which lists digits least significant first.
pub open spec fn chars_of_rev(rev: Seq<usize>) -> Seq<char> {
    Seq::new(rev.len(), |i: int| digit_char(rev[rev.len() - 1 - i] as nat))
}

/// Writes `n` in decimal, without sign or padding.
pub fn usize_to_string(n: usize) -> (r: String)
    ensures
        r@ == dec_digits(n as nat),
{
    let mut rev: Vec<usize> = Vec::new();
    let mut m: usize = n;
    loop
        invariant_except_break
            rev@.len() == 0 ==> m == n,
            rev@.len() > 0 ==> m > 0 && dec_digits(n as nat) == dec_digits(m as nat)
                + chars_of_rev(rev@),
        invariant
            forall|i: int| 0 <= i < rev@.len() ==> #[trigger] rev@[i] < 10,
        ensures
            rev@.len() > 0,
            dec_digits(n as nat) == chars_of_rev(rev@),
        decreases m,
    {
        let d = m % 10;
        let m2 = m / 10;
        proof {
            let old_rev = rev@;
            let pushed = old_rev.push(d);
            if old_rev.len() == 0 {
                assert(chars_of_rev(pushed) =~= seq![digit_char(d as nat)]);
                if m2 > 0 {
                    assert(dec_digits(n as nat) == dec_digits(m2 as nat) + seq![
                        digit_char(d as nat),
                    ]);
                } else {
                    assert(dec_digits(n as nat) =~= seq![digit_char(d as nat)]);
                }
            } else {
                assert(chars_of_rev(pushed) =~= seq![digit_char(d as nat)] + chars_of_rev(
                    old_rev,
                ));
                if m2 > 0 {
                    assert(dec_digits(m as nat) == dec_digits(m2 as nat) + seq![
                        digit_char(d as nat),
                    ]);
                    assert(dec_digits(m2 as nat) + (seq![digit_char(d as nat)] + chars_of_rev(
                        old_rev,
                    )) =~= (dec_digits(m2 as nat) + seq![digit_char(d as nat)]) + chars_of_rev(
                        old_rev,
                    ));
                } else {
                    assert(dec_digits(m as nat) =~= seq![digit_char(d as nat)]);
                }
            }
        }
        rev.push(d);
        m = m2;
        if m == 0 {
            break;
        }
    }
    let mut out = String::new();
    let mut i: usize = 0;
    let count = rev.len();
    while i < count
        invariant
            i <= count,
            count == rev@.len(),
            forall|k: int| 0 <= k < rev@.len() ==> #[trigger] rev@[k] < 10,
            out@ == chars_of_rev(rev@).take(i as int),
        decreases count - i,
    {
        let d = rev[count - 1 - i];
        out.append(digit_str(d));
        proof {
            assert(chars_of_rev(rev@).take(i + 1) =~= chars_of_rev(rev@).take(i as int) + seq![
                digit_char(rev@[rev@.len() - 1 - i] as nat),
            ]);
        }
        i = i + 1;
    }
    proof {
        assert(chars_of_rev(rev@).take(count as int) =~= chars_of_rev(rev@));
    }
    out
}

pub proof fn lemma_dec_value_step(s: Seq<char>, i: int)
    requires
        0 <= i < s.len(),
    ensures
        dec_value(s.take(i + 1)) == dec_value(s.take(i)) * 10 + digit_val(s[i]),
{
    assert(s.take(i + 1).drop_last() =~= s.take(i));
    assert(s.take(i + 1).last() == s[i]);
}

pub proof fn lemma_dec_value_grows(s: Seq<char>, i: int)
    requires
        0 <= i <= s.len(),
    ensures
        dec_value(s.take(i)) <= dec_value(s),
    decreases s.len() - i,
{
    if i == s.len() {
        assert(s.take(i) =~= s);
    } else {
        lemma_dec_value_step(s, i);
        lemma_dec_value_grows(s, i + 1);
    }
}

/// Reads a non-empty run of decimal digits as a number; fails on any other
/// character and on a value over `usize::MAX`.
pub fn parse_dec(s: &str) -> (r: Option<usize>)
    ensures
        match r {
            Some(n) => is_dec_digits(s@) && n as nat == dec_value(s@) && dec_value(s@)
                <= usize::MAX as nat,
            None => !(is_dec_digits(s@) && dec_value(s@) <= usize::MAX as nat),
        },
{
    let len = s.unicode_len();
    if len == 0 {
        return None;
    }
    let mut n: usize = 0;
    let mut i: usize = 0;
    while i < len
        invariant
            i <= len,
            len == s@.len(),
            1 <= len,
            forall|k: int| 0 <= k < i ==> is_digit(#[trigger] s@[k]),
            n as nat == dec_value(s@.take(i as int)),
        decreases len - i,
    {
        let c = s.get_char(i);
        let v = c as u32;
        if v < 48 || v > 57 {
            return None;
        }
        let d = (v - 48) as usize;
        proof {
            lemma_dec_value_step(s@, i as int);
        }
        let n10 = match n.checked_mul(10) {
            Some(x) => x,
            None => {
                proof {
                    lemma_dec_value_grows(s@, i + 1);
                }
                return None;
            },
        };
        n = match n10.checked_add(d) {
            Some(x) => x,
            None => {
                proof {
                    lemma_dec_value_grows(s@, i + 1);
                }
                return None;
            },
        };
        i = i + 1;
    }
    proof {
        assert(s@.take(len as int) =~= s@);
    }
    Some(n)
}

} // verus!
