//! The coordinate codec: a zero-based `(column, row)` pair and its textual
//! spreadsheet form, an uppercase bijective base-26 column name followed by a
//! one-based decimal row number.

use vstd::prelude::*;

verus! {

use crate::digits::{
    all_digit_chars, dec_str, dec_value, is_digit_char, lemma_dec_str_digits,
    lemma_dec_str_value, parse_digits, usize_to_string,
};
use vstd::arithmetic::div_mod::{lemma_div_decreases, lemma_fundamental_div_mod, lemma_mod_bound};

/// A zero-based spreadsheet coordinate: `x` is the column, `y` the row.
#[derive(Copy, Clone, Debug, PartialEq, Eq, Hash, Structural)]
pub struct Coord {
    pub x: usize,
    pub y: usize,
}

/// Why a textual reference failed to decode: a letter outside `A`-`Z` in the
/// letters span, or a digit span that is not a positive integer the machine
/// can hold.
#[derive(Copy, Clone, Debug, PartialEq, Eq, Structural)]
pub enum CoordFromRefErr {
    InvalidLetter,
    InvalidNumber,
}

/// True of the uppercase ASCII letters `A`-`Z`.
pub open spec fn is_upper_char(c: char) -> bool {
    'A' <= c && c <= 'Z'
}

/// True when every character of `s` is an uppercase ASCII letter.
pub open spec fn all_upper_chars(s: Seq<char>) -> bool {
    forall|k: int| 0 <= k < s.len() ==> is_upper_char(#[trigger] s[k])
}

/// The letter for column digit `d`, counting from `A`.
pub open spec fn letter_char(d: int) -> char {
    ('A' as int + d) as char
}

/// The value of a letter run when every letter counts one more than its
/// distance from `A` (`A` = 1, ..., `Z` = 26): the weight all letters carry
/// in a column name except the last.
pub open spec fn b26_prefix_val(s: Seq<char>) -> int
    decreases s.len(),
{
    if s.len() == 0 {
        0
    } else {
        b26_prefix_val(s.drop_last()) * 26 + (s.last() as int - 'A' as int + 1)
    }
}

/// The zero-based column index a letter run denotes: its final letter counts
/// from zero (`A` = 0, ..., `Z` = 25), every earlier letter from one.
pub open spec fn b26_value(s: Seq<char>) -> int {
    if s.len() == 0 {
        0
    } else {
        b26_prefix_val(s.drop_last()) * 26 + (s.last() as int - 'A' as int)
    }
}

/// The bijective base-26 name of the column with zero-based index `i`.
pub open spec fn spec_index_to_b26(i: nat) -> Seq<char>
    decreases i,
    via spec_index_to_b26_decreases
{
    if i < 26 {
        seq![letter_char(i as int)]
    } else {
        spec_index_to_b26((i / 26 - 1) as nat).push(letter_char((i % 26) as int))
    }
}

#[via_fn]
proof fn spec_index_to_b26_decreases(i: nat) {
    if i >= 26 {
        lemma_div_decreases(i as int, 26);
    }
}

/// What decoding the textual reference `s` with letters span `[a, b)` and
/// digit span `[b, c)` yields: the column read as bijective base 26 and the
/// one-based row turned zero-based, or the first failure.
pub open spec fn decode_spec(s: Seq<char>, a: int, b: int, c: int) -> Result<
    Coord,
    CoordFromRefErr,
> {
    let letters = s.subrange(a, b);
    let digits = s.subrange(b, c);
    if !all_upper_chars(letters) {
        Err(CoordFromRefErr::InvalidLetter)
    } else if !(digits.len() > 0 && all_digit_chars(digits) && 1 <= dec_value(digits)
        && dec_value(digits) <= usize::MAX && b26_value(letters) <= usize::MAX) {
        Err(CoordFromRefErr::InvalidNumber)
    } else {
        Ok(
            Coord {
                x: b26_value(letters) as usize,
                y: (dec_value(digits) - 1) as usize,
            },
        )
    }
}

proof fn lemma_b26_prefix_pos(s: Seq<char>)
    requires
        all_upper_chars(s),
    ensures
        b26_prefix_val(s) >= s.len(),
    decreases s.len(),
{
    if s.len() > 0 {
        assert(all_upper_chars(s.drop_last())) by {
            assert(forall|k: int|
                0 <= k < s.drop_last().len() ==> #[trigger] s.drop_last()[k] == s[k]);
        }
        lemma_b26_prefix_pos(s.drop_last());
    }
}

/// The prefix weight never falls when the letter run is extended.
proof fn lemma_b26_prefix_le(s: Seq<char>, i: int)
    requires
        all_upper_chars(s),
        0 <= i <= s.len(),
    ensures
        b26_prefix_val(s.subrange(0, i)) <= b26_prefix_val(s),
    decreases s.len() - i,
{
    if i < s.len() {
        let t = s.subrange(0, i + 1);
        assert(all_upper_chars(t)) by {
            assert(forall|k: int| 0 <= k < t.len() ==> #[trigger] t[k] == s[k]);
        }
        assert(t.drop_last() =~= s.subrange(0, i));
        lemma_b26_prefix_pos(t.drop_last());
        assert(is_upper_char(s[i]));
        assert(b26_prefix_val(s.subrange(0, i)) <= b26_prefix_val(t));
        lemma_b26_prefix_le(s, i + 1);
        assert(s.subrange(0, s.len() as int) =~= s);
    } else {
        assert(s.subrange(0, i) =~= s);
    }
}

/// A column value is at least the weight of its letters but the last.
proof fn lemma_b26_value_ge_prefix(s: Seq<char>)
    requires
        all_upper_chars(s),
        s.len() > 0,
    ensures
        b26_value(s) >= b26_prefix_val(s.drop_last()),
{
    assert(all_upper_chars(s.drop_last())) by {
        assert(forall|k: int| 0 <= k < s.drop_last().len() ==> #[trigger] s.drop_last()[k] == s[k]);
    }
    lemma_b26_prefix_pos(s.drop_last());
    assert(is_upper_char(s.last()));
}

impl Coord {
    /// Decodes a textual reference from `refer`: `split` is
    /// `Some((a, b, c))` with the letters at `[a, b)` and the digits at
    /// `[b, c)`, as character indices.
    pub fn from_ref(refer: &str, split: Option<(usize, usize, usize)>) -> (r: Result<
        Self,
        CoordFromRefErr,
    >)
        requires
            split matches Some(sp) && 0 <= sp.0 < sp.1 <= sp.2 <= refer@.len(),
        ensures
            split matches Some(sp) && r == decode_spec(
                refer@,
                sp.0 as int,
                sp.1 as int,
                sp.2 as int,
            ),
    {
        let (a, b, c) = split.unwrap();
        let chars = str_chars(refer);
        decode_spans(&chars, a, b, c)
    }

    /// The letter for a single column digit.
    fn single_digit_b26(i: usize) -> (c: char)
        requires
            i < 26,
        ensures
            c == letter_char(i as int),
    {
        ('A' as u8 + i as u8) as char
    }

    /// Writes the zero-based column index `i` as its bijective base-26 name.
    pub fn index_to_b26(i: usize) -> (r: String)
        ensures
            r@ == spec_index_to_b26(i as nat),
        decreases i,
    {
        if i < 26 {
            let mut s = String::new();
            s.push(Self::single_digit_b26(i));
            proof {
                assert(s@ =~= seq![letter_char(i as int)]);
            }
            s
        } else {
            proof {
                lemma_div_decreases(i as int, 26);
            }
            let mut s = Self::index_to_b26(i / 26 - 1);
            proof {
                lemma_mod_bound(i as int, 26);
            }
            s.push(Self::single_digit_b26(i % 26));
            s
        }
    }

    /// The textual form of this coordinate: the column name followed by the
    /// one-based decimal row number, so that decoding the result recovers
    /// the coordinate.
    pub fn to_ref(&self) -> (r: String)
        requires
            self.y < usize::MAX,
        ensures
            r@ == spec_index_to_b26(self.x as nat) + dec_str((self.y + 1) as nat),
    {
        let mut s = Self::index_to_b26(self.x);
        let t = usize_to_string(self.y + 1);
        s.append(t.as_str());
        s
    }
}

/// Collects the characters of `s`.
pub(crate) fn str_chars(s: &str) -> (r: Vec<char>)
    ensures
        r@ == s@,
{
    let n = s.unicode_len();
    let mut chars: Vec<char> = Vec::new();
    let mut k: usize = 0;
    while k < n
        invariant
            n == s@.len(),
            0 <= k <= n,
            chars@ == s@.subrange(0, k as int),
        decreases n - k,
    {
        chars.push(s.get_char(k));
        proof {
            assert(chars@ =~= s@.subrange(0, k as int + 1));
        }
        k = k + 1;
    }
    proof {
        assert(chars@ =~= s@);
    }
    chars
}

/// Decodes the reference written in `line` with letters at `[a, b)` and
/// digits at `[b, c)`.
pub(crate) fn decode_spans(line: &Vec<char>, a: usize, b: usize, c: usize) -> (r: Result<
    Coord,
    CoordFromRefErr,
>)
    requires
        a < b <= c <= line@.len(),
    ensures
        r == decode_spec(line@, a as int, b as int, c as int),
{
    let ghost letters = line@.subrange(a as int, b as int);
    let ghost digits = line@.subrange(b as int, c as int);
    let mut j: usize = a;
    while j < b
        invariant
            a <= j <= b <= line@.len(),
            letters == line@.subrange(a as int, b as int),
            forall|k: int| a <= k < j ==> is_upper_char(#[trigger] line@[k]),
        decreases b - j,
    {
        let ch = line[j];
        if !('A' <= ch && ch <= 'Z') {
            proof {
                assert(letters[j - a] == line@[j as int]);
                assert(!all_upper_chars(letters));
            }
            return Err(CoordFromRefErr::InvalidLetter);
        }
        j = j + 1;
    }
    proof {
        assert(all_upper_chars(letters)) by {
            assert(forall|k: int| 0 <= k < letters.len() ==> letters[k] == line@[a + k]);
        }
    }
    // The column: the weight of every letter but the last, then the last
    // letter counting from zero.
    let mut x: usize = 0;
    let mut j: usize = a;
    while j < b - 1
        invariant
            a <= j <= b - 1,
            a < b <= line@.len(),
            letters == line@.subrange(a as int, b as int),
            all_upper_chars(letters),
            x == b26_prefix_val(line@.subrange(a as int, j as int)),
        decreases b - j,
    {
        let ch = line[j];
        proof {
            assert(letters[j - a] == ch);
            assert(is_upper_char(ch));
        }
        let d = (ch as u32 - 'A' as u32) as usize;
        let ghost pre = line@.subrange(a as int, j as int);
        proof {
            assert(line@.subrange(a as int, j as int + 1).drop_last() =~= pre);
            assert(line@.subrange(a as int, j as int + 1).last() == ch);
        }
        let step = match x.checked_mul(26) {
            Some(m) => m.checked_add(d + 1),
            None => None,
        };
        match step {
            Some(next) => {
                x = next;
                j = j + 1;
            },
            None => {
                proof {
                    let pl = letters.drop_last();
                    assert(pl =~= letters.subrange(0, letters.len() - 1));
                    assert(all_upper_chars(pl)) by {
                        assert(forall|k: int| 0 <= k < pl.len() ==> #[trigger] pl[k] == letters[k]);
                    }
                    assert(pl.subrange(0, j - a + 1) =~= line@.subrange(a as int, j as int + 1));
                    lemma_b26_prefix_le(pl, j - a + 1);
                    assert(b26_prefix_val(pl) > usize::MAX);
                    lemma_b26_value_ge_prefix(letters);
                }
                return Err(CoordFromRefErr::InvalidNumber);
            },
        }
    }
    let ch = line[b - 1];
    proof {
        assert(letters[b - 1 - a] == ch);
        assert(is_upper_char(ch));
        assert(letters.drop_last() =~= line@.subrange(a as int, b as int - 1));
    }
    let d = (ch as u32 - 'A' as u32) as usize;
    let xfull = match x.checked_mul(26) {
        Some(m) => m.checked_add(d),
        None => None,
    };
    let x = match xfull {
        Some(v) => v,
        None => {
            proof {
                assert(b26_value(letters) > usize::MAX);
            }
            return Err(CoordFromRefErr::InvalidNumber);
        },
    };
    proof {
        assert(x == b26_value(letters));
    }
    // The row: the digit span read as a one-based decimal row number.
    if b == c {
        return Err(CoordFromRefErr::InvalidNumber);
    }
    let mut j: usize = b;
    while j < c
        invariant
            a < b <= j <= c <= line@.len(),
            letters == line@.subrange(a as int, b as int),
            digits == line@.subrange(b as int, c as int),
            all_upper_chars(letters),
            x == b26_value(letters),
            forall|k: int| b <= k < j ==> is_digit_char(#[trigger] line@[k]),
        decreases c - j,
    {
        let ch = line[j];
        if !('0' <= ch && ch <= '9') {
            proof {
                assert(digits[j - b] == line@[j as int]);
                assert(!all_digit_chars(digits));
            }
            return Err(CoordFromRefErr::InvalidNumber);
        }
        j = j + 1;
    }
    proof {
        assert(all_digit_chars(digits)) by {
            assert(forall|k: int| 0 <= k < digits.len() ==> digits[k] == line@[b + k]);
        }
    }
    match parse_digits(line, b, c) {
        Some(v) => {
            if v == 0 {
                Err(CoordFromRefErr::InvalidNumber)
            } else {
                Ok(Coord { x, y: v - 1 })
            }
        },
        None => Err(CoordFromRefErr::InvalidNumber),
    }
}

/// Encoding a column index and reading the name back is the identity:
/// `b26_value(spec_index_to_b26(i)) == i` for every zero-based index.
pub proof fn lemma_column_round_trip(i: nat)
    ensures
        b26_value(spec_index_to_b26(i)) == i,
    decreases i,
{
    if i < 26 {
        assert(spec_index_to_b26(i).drop_last() =~= Seq::<char>::empty());
    } else {
        lemma_div_decreases(i as int, 26);
        lemma_mod_bound(i as int, 26);
        lemma_b26_prefix_round_trip((i / 26 - 1) as nat);
        assert(spec_index_to_b26(i).drop_last() =~= spec_index_to_b26((i / 26 - 1) as nat));
        lemma_fundamental_div_mod(i as int, 26);
    }
}

/// A column name is a nonempty run of uppercase letters.
pub proof fn lemma_index_to_b26_upper(i: nat)
    ensures
        spec_index_to_b26(i).len() >= 1,
        all_upper_chars(spec_index_to_b26(i)),
    decreases i,
{
    if i < 26 {
        assert(is_upper_char(spec_index_to_b26(i)[0]));
    } else {
        lemma_div_decreases(i as int, 26);
        lemma_mod_bound(i as int, 26);
        lemma_index_to_b26_upper((i / 26 - 1) as nat);
        let s = spec_index_to_b26(i);
        let p = spec_index_to_b26((i / 26 - 1) as nat);
        assert(forall|k: int| 0 <= k < p.len() ==> s[k] == p[k]);
        assert(is_upper_char(s[s.len() - 1]));
    }
}

/// The round trip through the public decoder: the textual form of a
/// coordinate, as `to_ref` writes it, decodes back to that coordinate.
pub proof fn lemma_encode_decode(x: nat, y: nat)
    requires
        x <= usize::MAX,
        y < usize::MAX,
    ensures
        ({
            let name = spec_index_to_b26(x);
            let refer = name + dec_str((y + 1) as nat);
            decode_spec(refer, 0, name.len() as int, refer.len() as int) == Ok::<
                Coord,
                CoordFromRefErr,
            >(Coord { x: x as usize, y: y as usize })
        }),
{
    lemma_column_round_trip(x);
    lemma_index_to_b26_upper(x);
    lemma_dec_str_digits((y + 1) as nat);
    lemma_dec_str_value((y + 1) as nat);
    let name = spec_index_to_b26(x);
    let digits = dec_str((y + 1) as nat);
    let refer = name + digits;
    assert(refer.subrange(0, name.len() as int) =~= name);
    assert(refer.subrange(name.len() as int, refer.len() as int) =~= digits);
}

proof fn lemma_b26_prefix_round_trip(i: nat)
    ensures
        b26_prefix_val(spec_index_to_b26(i)) == i + 1,
    decreases i,
{
    if i < 26 {
        let s = spec_index_to_b26(i);
        assert(s.drop_last() =~= Seq::<char>::empty());
        assert(b26_prefix_val(Seq::<char>::empty()) == 0);
        assert(s.last() == letter_char(i as int));
        assert(b26_prefix_val(s) == b26_prefix_val(s.drop_last()) * 26 + (s.last() as int
            - 'A' as int + 1));
    } else {
        lemma_div_decreases(i as int, 26);
        lemma_mod_bound(i as int, 26);
        lemma_b26_prefix_round_trip((i / 26 - 1) as nat);
        let s = spec_index_to_b26(i);
        assert(s == spec_index_to_b26((i / 26 - 1) as nat).push(letter_char((i % 26) as int)));
        assert(s.drop_last() =~= spec_index_to_b26((i / 26 - 1) as nat));
        assert(s.last() == letter_char((i % 26) as int));
        assert(b26_prefix_val(s) == b26_prefix_val(s.drop_last()) * 26 + (s.last() as int
            - 'A' as int + 1));
        lemma_fundamental_div_mod(i as int, 26);
    }
}

} // verus!
