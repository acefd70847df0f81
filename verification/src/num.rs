//! Decimal integers as text: formatting and parsing, with proved round trips.

use vstd::prelude::*;

verus! {

/// The decimal digit character for a value 0 through 9.
pub open spec fn digit_char(d: int) -> char {
    if d == 0 {
        '0'
    } else if d == 1 {
        '1'
    } else if d == 2 {
        '2'
    } else if d == 3 {
        '3'
    } else if d == 4 {
        '4'
    } else if d == 5 {
        '5'
    } else if d == 6 {
        '6'
    } else if d == 7 {
        '7'
    } else if d == 8 {
        '8'
    } else if d == 9 {
        '9'
    } else {
        '0'
    }
}

/// The value of a decimal digit character, or -1 for any other character.
pub open spec fn digit_val(c: char) -> int {
    match c {
        '0' => 0,
        '1' => 1,
        '2' => 2,
        '3' => 3,
        '4' => 4,
        '5' => 5,
        '6' => 6,
        '7' => 7,
        '8' => 8,
        '9' => 9,
        _ => -1,
    }
}

pub open spec fn is_digit(c: char) -> bool {
    digit_val(c) >= 0
}

pub open spec fn all_digits(s: Seq<char>) -> bool {
    forall|i: int| 0 <= i < s.len() ==> is_digit(#[trigger] s[i])
}

/// The value of a sequence of decimal digit characters, most significant
/// first.
pub open spec fn digits_val(s: Seq<char>) -> int
    decreases s.len(),
{
    if s.len() == 0 {
        0
    } else {
        digits_val(s.drop_last()) * 10 + digit_val(s.last())
    }
}

/// The decimal digits of a non-negative value, without a sign.
pub open spec fn dec_nat(n: int) -> Seq<char>
    recommends
        n >= 0,
    decreases n,
{
    if n <= 9 {
        seq![digit_char(n)]
    } else {
        dec_nat(n / 10) + seq![digit_char(n % 10)]
    }
}

/// The decimal text of an integer: a minus sign for negative values,
/// then the digits.
pub open spec fn dec_int(n: int) -> Seq<char> {
    if n < 0 {
        seq!['-'] + dec_nat(-n)
    } else {
        dec_nat(n)
    }
}

/// What parsing decimal text yields: the value of the digits, negated
/// after a leading minus sign; `None` for anything else.
pub open spec fn parse_int_spec(s: Seq<char>) -> Option<int> {
    if s.len() >= 1 && s[0] == '-' {
        if s.len() >= 2 && all_digits(s.skip(1)) {
            Some(-digits_val(s.skip(1)))
        } else {
            None
        }
    } else if s.len() >= 1 && all_digits(s) {
        Some(digits_val(s))
    } else {
        None
    }
}

pub proof fn lemma_digits_val_nonneg(s: Seq<char>)
    requires
        all_digits(s),
    ensures
        digits_val(s) >= 0,
    decreases s.len(),
{
    if s.len() > 0 {
        lemma_digits_val_nonneg(s.drop_last());
    }
}

/// Extending a digit string multiplies its value; in particular the value
/// never shrinks as more digits are read.
pub proof fn lemma_digits_val_prefix(s: Seq<char>, i: int)
    requires
        all_digits(s),
        0 <= i <= s.len(),
    ensures
        digits_val(s) >= digits_val(s.take(i)),
    decreases s.len() - i,
{
    if i < s.len() {
        lemma_digits_val_prefix(s, i + 1);
        lemma_digits_val_nonneg(s.take(i));
        assert(s.take(i + 1).drop_last() =~= s.take(i));
        assert(digits_val(s.take(i + 1)) == digits_val(s.take(i)) * 10 + digit_val(s[i]));
        assert(digits_val(s.take(i)) * 10 >= digits_val(s.take(i))) by (nonlinear_arith)
            requires digits_val(s.take(i)) >= 0;
    } else {
        assert(s.take(i) =~= s);
    }
}

pub proof fn lemma_dec_nat_digits(n: int)
    requires
        n >= 0,
    ensures
        all_digits(dec_nat(n)),
        dec_nat(n).len() >= 1,
        digits_val(dec_nat(n)) == n,
    decreases n,
{
    if n <= 9 {
        assert(dec_nat(n) == seq![digit_char(n)]);
        assert(digits_val(dec_nat(n)) == digits_val(seq![digit_char(n)].drop_last()) * 10
            + digit_val(digit_char(n)));
        assert(seq![digit_char(n)].drop_last() =~= Seq::<char>::empty());
    } else {
        lemma_dec_nat_digits(n / 10);
        let w = dec_nat(n / 10) + seq![digit_char(n % 10)];
        assert(w.drop_last() =~= dec_nat(n / 10));
        assert(digits_val(w) == digits_val(dec_nat(n / 10)) * 10 + digit_val(digit_char(n % 10)));
        assert(n / 10 * 10 + n % 10 == n) by (nonlinear_arith);
        assert(all_digits(w)) by {
            assert(forall|i: int| 0 <= i < w.len() - 1 ==> w[i] == dec_nat(n / 10)[i]);
        }
    }
}

/// Formatting an integer and parsing the text back yields the same value.
pub proof fn lemma_dec_int_round_trip(n: int)
    ensures
        parse_int_spec(dec_int(n)) == Some(n),
{
    if n < 0 {
        lemma_dec_nat_digits(-n);
        let s = seq!['-'] + dec_nat(-n);
        assert(s[0] == '-');
        assert(s.skip(1) =~= dec_nat(-n));
        assert(s.len() >= 2);
    } else {
        lemma_dec_nat_digits(n);
        let s = dec_nat(n);
        assert(is_digit(s[0]));
        assert(s[0] != '-');
    }
}

/// The digit character of a value 0 through 9.
pub fn digit_char_exec(d: u8) -> (c: char)
    requires
        0 <= d <= 9,
    ensures
        c == digit_char(d as int),
{
    match d {
        0 => '0',
        1 => '1',
        2 => '2',
        3 => '3',
        4 => '4',
        5 => '5',
        6 => '6',
        7 => '7',
        8 => '8',
        _ => '9',
    }
}

/// The value of a digit character, or `None` for any other character.
pub fn digit_val_exec(c: char) -> (r: Option<u8>)
    ensures
        is_digit(c) ==> r == Some(digit_val(c) as u8),
        !is_digit(c) ==> r is None,
{
    match c {
        '0' => Some(0),
        '1' => Some(1),
        '2' => Some(2),
        '3' => Some(3),
        '4' => Some(4),
        '5' => Some(5),
        '6' => Some(6),
        '7' => Some(7),
        '8' => Some(8),
        '9' => Some(9),
        _ => None,
    }
}

fn format_nat(n: i128) -> (r: Vec<char>)
    requires
        n >= 0,
    ensures
        r@ == dec_nat(n as int),
    decreases n,
{
    if n <= 9 {
        let mut r: Vec<char> = Vec::new();
        r.push(digit_char_exec(n as u8));
        proof {
            assert(r@ =~= seq![digit_char(n as int)]);
        }
        r
    } else {
        let mut r = format_nat(n / 10);
        r.push(digit_char_exec((n % 10) as u8));
        proof {
            assert(r@ =~= dec_nat(n as int / 10) + seq![digit_char(n as int % 10)]);
        }
        r
    }
}

/// The decimal text of an integer.
pub fn format_int(n: i128) -> (r: Vec<char>)
    requires
        n > i128::MIN,
    ensures
        r@ == dec_int(n as int),
{
    if n < 0 {
        let mut r: Vec<char> = Vec::new();
        r.push('-');
        let digits = format_nat(-n);
        crate::text::push_all(&mut r, &digits);
        proof {
            assert(seq!['-'] + dec_nat(-(n as int)) =~= seq!['-'].push('-').drop_last() + dec_nat(
                -(n as int)));
            assert(r@ =~= seq!['-'] + dec_nat(-(n as int)));
        }
        r
    } else {
        format_nat(n)
    }
}

/// The largest magnitude `parse_digits` will accumulate: one more than
/// `i64::MAX`, so that `i64::MIN` still parses after its minus sign.
pub open spec fn parse_bound() -> int {
    0x8000_0000_0000_0000
}

/// Parses the digits of `s` from position `from` on. Yields the value when
/// every remaining character is a digit, there is at least one, and the
/// value is at most `parse_bound()`; `None` otherwise.
fn parse_digits(s: &Vec<char>, from: usize) -> (r: Option<i128>)
    requires
        from <= s@.len(),
    ensures
        (from < s@.len() && all_digits(s@.skip(from as int)) && digits_val(s@.skip(from as int))
            <= parse_bound()) ==> (r == Some(
            digits_val(s@.skip(from as int)) as i128,
        )),
        r matches Some(v) ==> (from < s@.len() && all_digits(s@.skip(from as int)) && v as int
            == digits_val(s@.skip(from as int)) && v <= parse_bound()),
{
    if from >= s.len() {
        return None;
    }
    let tail = Ghost(s@.skip(from as int));
    let mut acc: i128 = 0;
    let mut i: usize = from;
    while i < s.len()
        invariant
            from <= i <= s@.len(),
            tail@ == s@.skip(from as int),
            all_digits(tail@.take(i - from)),
            acc as int == digits_val(tail@.take(i - from)),
            0 <= acc <= parse_bound(),
        decreases s@.len() - i,
    {
        let d = match digit_val_exec(s[i]) {
            Some(d) => d,
            None => {
                proof {
                    assert(tail@[i - from] == s@[i as int]);
                    assert(!is_digit(tail@[i - from]));
                }
                return None;
            },
        };
        proof {
            assert(tail@.take(i - from + 1).drop_last() =~= tail@.take(i - from));
            assert(tail@.take(i - from + 1).last() == s@[i as int]);
        }
        if acc > 0xCCC_CCCC_CCCC_CCCC || acc * 10 + (d as i128) > 0x8000_0000_0000_0000i128 {
            proof {
                let k = i - from + 1;
                assert(digits_val(tail@.take(k)) == acc * 10 + d);
                assert(digits_val(tail@.take(k)) > parse_bound());
                if all_digits(tail@) {
                    lemma_digits_val_prefix(tail@, k);
                }
            }
            return None;
        }
        acc = acc * 10 + (d as i128);
        i = i + 1;
    }
    proof {
        assert(tail@.take(i - from) =~= tail@);
    }
    Some(acc)
}

/// Parses decimal text as an integer in the range of `i64`.
pub fn parse_i64(s: &Vec<char>) -> (r: Option<i64>)
    ensures
        match parse_int_spec(s@) {
            Some(v) => if i64::MIN <= v <= i64::MAX {
                r == Some(v as i64)
            } else {
                r is None
            },
            None => r is None,
        },
{
    if s.len() == 0 {
        return None;
    }
    if s[0] == '-' {
        proof {
            if all_digits(s@.skip(1)) {
                lemma_digits_val_nonneg(s@.skip(1));
            }
        }
        match parse_digits(s, 1) {
            Some(v) => Some((-v) as i64),
            None => None,
        }
    } else {
        proof {
            if s@.len() >= 1 && all_digits(s@) {
                assert(is_digit(s@[0]));
                assert(s@.skip(0) =~= s@);
                lemma_digits_val_nonneg(s@);
            }
        }
        match parse_digits(s, 0) {
            Some(v) => {
                if v <= i64::MAX as i128 {
                    proof {
                        assert(s@.skip(0) =~= s@);
                    }
                    Some(v as i64)
                } else {
                    proof {
                        assert(s@.skip(0) =~= s@);
                    }
                    None
                }
            },
            None => {
                proof {
                    assert(s@.skip(0) =~= s@);
                }
                None
            },
        }
    }
}

/// Parses decimal text as an integer in the range of `i32`.
pub fn parse_i32(s: &Vec<char>) -> (r: Option<i32>)
    ensures
        match parse_int_spec(s@) {
            Some(v) => if i32::MIN <= v <= i32::MAX {
                r == Some(v as i32)
            } else {
                r is None
            },
            None => r is None,
        },
{
    match parse_i64(s) {
        Some(v) => {
            if i32::MIN as i64 <= v && v <= i32::MAX as i64 {
                Some(v as i32)
            } else {
                None
            }
        },
        None => None,
    }
}

} // verus!
