//! Decimal digit runs: their numeric value and the decimal form of a
//! number, shared by the coordinate codec and the diagnostic reporter.

use vstd::prelude::*;

verus! {

use vstd::arithmetic::div_mod::{lemma_div_decreases, lemma_fundamental_div_mod, lemma_mod_bound};

/// True of the ASCII decimal digits `0`-`9`.
pub open spec fn is_digit_char(c: char) -> bool {
    '0' <= c && c <= '9'
}

/// True when every character of `s` is a decimal digit.
pub open spec fn all_digit_chars(s: Seq<char>) -> bool {
    forall|k: int| 0 <= k < s.len() ==> is_digit_char(#[trigger] s[k])
}

/// The character for the decimal digit `d`.
pub open spec fn digit_char(d: int) -> char {
    ('0' as int + d) as char
}

/// The value of a run of decimal digits, most significant first.
pub open spec fn dec_value(s: Seq<char>) -> int
    decreases s.len(),
{
    if s.len() == 0 {
        0
    } else {
        dec_value(s.drop_last()) * 10 + (s.last() as int - '0' as int)
    }
}

/// The decimal digits of `n`, most significant first, with no leading zeros.
pub open spec fn dec_str(n: nat) -> Seq<char>
    decreases n,
{
    if n < 10 {
        seq![digit_char(n as int)]
    } else {
        dec_str(n / 10).push(digit_char((n % 10) as int))
    }
}

pub proof fn lemma_dec_value_nonneg(s: Seq<char>)
    requires
        all_digit_chars(s),
    ensures
        dec_value(s) >= 0,
    decreases s.len(),
{
    if s.len() > 0 {
        assert(all_digit_chars(s.drop_last())) by {
            assert(forall|k: int|
                0 <= k < s.drop_last().len() ==> #[trigger] s.drop_last()[k] == s[k]);
        }
        lemma_dec_value_nonneg(s.drop_last());
    }
}

/// The value of a digit run never falls when the run is extended to the right.
pub proof fn lemma_dec_value_prefix_le(s: Seq<char>, i: int)
    requires
        all_digit_chars(s),
        0 <= i <= s.len(),
    ensures
        dec_value(s.subrange(0, i)) <= dec_value(s),
    decreases s.len() - i,
{
    if i < s.len() {
        let t = s.subrange(0, i + 1);
        assert(all_digit_chars(t)) by {
            assert(forall|k: int| 0 <= k < t.len() ==> #[trigger] t[k] == s[k]);
        }
        assert(t.drop_last() =~= s.subrange(0, i));
        lemma_dec_value_nonneg(t.drop_last());
        assert(dec_value(t) == dec_value(t.drop_last()) * 10 + (t.last() as int - '0' as int));
        assert(is_digit_char(s[i]));
        assert(dec_value(s.subrange(0, i)) <= dec_value(s.subrange(0, i + 1)));
        lemma_dec_value_prefix_le(s, i + 1);
        assert(s.subrange(0, s.len() as int) =~= s);
    } else {
        assert(s.subrange(0, i) =~= s);
    }
}

/// Reads the decimal digits `line[a..b]` as a `usize`; `None` when the value
/// does not fit.
pub(crate) fn parse_digits(line: &Vec<char>, a: usize, b: usize) -> (r: Option<usize>)
    requires
        a <= b <= line@.len(),
        all_digit_chars(line@.subrange(a as int, b as int)),
    ensures
        match r {
            Some(v) => v == dec_value(line@.subrange(a as int, b as int)),
            None => dec_value(line@.subrange(a as int, b as int)) > usize::MAX,
        },
{
    let ghost whole = line@.subrange(a as int, b as int);
    let mut v: usize = 0;
    let mut j: usize = a;
    while j < b
        invariant
            a <= j <= b <= line@.len(),
            all_digit_chars(whole),
            whole == line@.subrange(a as int, b as int),
            v == dec_value(line@.subrange(a as int, j as int)),
        decreases b - j,
    {
        let c = line[j];
        assert(is_digit_char(c)) by {
            assert(whole[j - a] == c);
        }
        let d = (c as u32 - '0' as u32) as usize;
        let ghost pre = line@.subrange(a as int, j as int);
        proof {
            assert(line@.subrange(a as int, j as int + 1).drop_last() =~= pre);
            assert(line@.subrange(a as int, j as int + 1).last() == c);
        }
        let step = match v.checked_mul(10) {
            Some(m) => m.checked_add(d),
            None => None,
        };
        match step {
            Some(next) => {
                v = next;
                j = j + 1;
            },
            None => {
                proof {
                    assert(dec_value(line@.subrange(a as int, j as int + 1)) > usize::MAX);
                    assert(line@.subrange(a as int, j as int + 1) =~= whole.subrange(
                        0,
                        j - a + 1,
                    ));
                    lemma_dec_value_prefix_le(whole, j - a + 1);
                }
                return None;
            },
        }
    }
    proof {
        assert(line@.subrange(a as int, b as int) =~= whole);
    }
    Some(v)
}

/// Writes `n` in decimal, mirroring `dec_str`.
pub(crate) fn usize_to_string(n: usize) -> (r: String)
    ensures
        r@ == dec_str(n as nat),
    decreases n,
{
    if n < 10 {
        let c = ('0' as u8 + n as u8) as char;
        let mut s = String::new();
        s.push(c);
        proof {
            assert(s@ =~= seq![digit_char(n as int)]);
        }
        s
    } else {
        proof {
            lemma_div_decreases(n as int, 10);
        }
        let mut s = usize_to_string(n / 10);
        proof {
            lemma_mod_bound(n as int, 10);
        }
        let c = ('0' as u8 + (n % 10) as u8) as char;
        s.push(c);
        s
    }
}

/// `dec_str` emits one digit at least, and digits only.
pub proof fn lemma_dec_str_digits(n: nat)
    ensures
        all_digit_chars(dec_str(n)),
        dec_str(n).len() >= 1,
    decreases n,
{
    if n < 10 {
        assert(is_digit_char(dec_str(n)[0]));
    } else {
        lemma_div_decreases(n as int, 10);
        lemma_dec_str_digits(n / 10);
        lemma_mod_bound(n as int, 10);
        let s = dec_str(n);
        let t = dec_str(n / 10);
        assert(forall|k: int| 0 <= k < t.len() ==> s[k] == t[k]);
        assert(is_digit_char(s[s.len() - 1]));
    }
}

/// Reading back the decimal digits of `n` gives `n`.
pub proof fn lemma_dec_str_value(n: nat)
    ensures
        dec_value(dec_str(n)) == n,
    decreases n,
{
    if n < 10 {
        let s = dec_str(n);
        assert(s.drop_last() =~= Seq::<char>::empty());
        assert(dec_value(Seq::<char>::empty()) == 0);
        assert(s.last() == digit_char(n as int));
        assert(dec_value(s) == dec_value(s.drop_last()) * 10 + (s.last() as int - '0' as int));
    } else {
        lemma_div_decreases(n as int, 10);
        lemma_dec_str_value(n / 10);
        lemma_mod_bound(n as int, 10);
        let s = dec_str(n);
        assert(s == dec_str(n / 10).push(digit_char((n % 10) as int)));
        assert(s.drop_last() =~= dec_str(n / 10));
        assert(s.last() == digit_char((n % 10) as int));
        assert(dec_value(s) == dec_value(s.drop_last()) * 10 + (s.last() as int - '0' as int));
        lemma_fundamental_div_mod(n as int, 10);
    }
}

} // verus!
