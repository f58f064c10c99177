//! Decimal lexemes: the textual form in which the engine carries numbers.
//! Integers are parsed into `i64`; non-integral numbers stay as their decimal
//! text, and conversions on them (such as rounding to an integer target)
//! operate on the digits.

use vstd::prelude::*;
use crate::textutil::is_digit;

verus! {

/// Every character is a decimal digit.
pub open spec fn all_digits(s: Seq<char>) -> bool {
    forall|i: int| 0 <= i < s.len() ==> is_digit(#[trigger] s[i])
}

/// Numeric value of one digit character.
pub open spec fn digit_val(c: char) -> int {
    c as int - 48
}

/// Value of a digit string, most significant first.
pub open spec fn digits_value(s: Seq<char>) -> int
    decreases s,
{
    if s.len() == 0 {
        0
    } else {
        digits_value(s.drop_last()) * 10 + digit_val(s.last())
    }
}

/// An optionally signed, non-empty run of digits.
pub open spec fn is_int_lexeme(s: Seq<char>) -> bool {
    if s.len() == 0 {
        false
    } else if s[0] == '-' {
        s.len() > 1 && all_digits(s.drop_first())
    } else {
        all_digits(s)
    }
}

/// The integer a signed digit string denotes.
pub open spec fn int_lexeme_value(s: Seq<char>) -> int {
    if s.len() > 0 && s[0] == '-' {
        -digits_value(s.drop_first())
    } else {
        digits_value(s)
    }
}

/// A decimal lexeme: an integer lexeme, optionally followed by a point and a
/// non-empty run of fraction digits.
pub open spec fn is_decimal_lexeme(s: Seq<char>) -> bool {
    is_int_lexeme(s) || (exists|k: int| decimal_split_at(s, k))
}

/// `k` marks the decimal point of a well-formed non-integral lexeme.
pub open spec fn decimal_split_at(s: Seq<char>, k: int) -> bool {
    &&& 0 < k < s.len() - 1
    &&& s[k] == '.'
    &&& is_int_lexeme(s.take(k))
    &&& all_digits(s.skip(k + 1))
    &&& s.len() - k - 1 >= 1
}

/// The integer nearest to a decimal lexeme, rounding half away from zero.
pub open spec fn decimal_round_value(s: Seq<char>) -> int {
    if is_int_lexeme(s) {
        int_lexeme_value(s)
    } else {
        let k = choose|k: int| decimal_split_at(s, k);
        let ip = int_lexeme_value(s.take(k));
        let up = if digit_val(s[k + 1]) >= 5 { 1int } else { 0int };
        if s[0] == '-' {
            ip - up
        } else {
            ip + up
        }
    }
}

pub proof fn lemma_digits_value_nonneg(s: Seq<char>)
    requires
        all_digits(s),
    ensures
        digits_value(s) >= 0,
    decreases s,
{
    if s.len() > 0 {
        assert(forall|i: int| 0 <= i < s.drop_last().len() ==> s.drop_last()[i] == s[i]);
        lemma_digits_value_nonneg(s.drop_last());
    }
}

/// A digit-string prefix never exceeds the whole string's value.
pub proof fn lemma_digits_value_prefix(s: Seq<char>, i: int)
    requires
        all_digits(s),
        0 <= i <= s.len(),
    ensures
        digits_value(s.take(i)) <= digits_value(s),
    decreases s,
{
    if i == s.len() {
        assert(s.take(i) =~= s);
    } else {
        assert(forall|j: int| 0 <= j < s.drop_last().len() ==> s.drop_last()[j] == s[j]);
        assert(s.take(i) =~= s.drop_last().take(i));
        lemma_digits_value_prefix(s.drop_last(), i);
        lemma_digits_value_nonneg(s.drop_last());
    }
}

/// Step lemma connecting a left-to-right accumulation to `digits_value`.
pub proof fn lemma_digits_value_step(s: Seq<char>, i: int)
    requires
        0 <= i < s.len(),
    ensures
        digits_value(s.take(i + 1)) == digits_value(s.take(i)) * 10 + digit_val(s[i]),
{
    assert(s.take(i + 1).drop_last() =~= s.take(i));
    assert(s.take(i + 1).last() == s[i]);
}

/// Parse the digit run `s[from..to]`, most significant first, into a `u64`
/// magnitude.  `None` means either a non-digit was met or the value does not
/// fit `u64`; in the latter case the value is far beyond `i64` range too.
pub(crate) fn parse_digits_u64(chars: &Vec<char>, from: usize, to: usize) -> (r: Option<u64>)
    requires
        0 <= from <= to <= chars@.len(),
    ensures
        match r {
            Option::Some(m) => {
                &&& all_digits(chars@.subrange(from as int, to as int))
                &&& m as int == digits_value(chars@.subrange(from as int, to as int))
            },
            Option::None => {
                !all_digits(chars@.subrange(from as int, to as int)) || digits_value(
                    chars@.subrange(from as int, to as int),
                ) > u64::MAX
            },
        },
{
    let ghost whole = chars@.subrange(from as int, to as int);
    let mut mag: u64 = 0;
    let mut i: usize = from;
    while i < to
        invariant
            from <= i <= to <= chars@.len(),
            whole == chars@.subrange(from as int, to as int),
            all_digits(whole.take(i - from)),
            mag as int == digits_value(whole.take(i - from)),
        decreases to - i,
    {
        let c = chars[i];
        if !crate::textutil::digit_char(c) {
            proof {
                assert(whole[i - from] == c);
                assert(!all_digits(whole));
            }
            return None;
        }
        let d: u64 = (c as u32 as u64) - 48;
        proof {
            assert(d as int == digit_val(c));
            assert(d <= 9);
        }
        if mag > (18446744073709551615u64 - d) / 10 {
            // the value is already beyond any 64-bit magnitude
            proof {
                lemma_digits_value_step(whole, i - from);
                assert(all_digits(whole.take(i - from + 1)));
                if all_digits(whole) {
                    lemma_digits_value_prefix(whole, i - from + 1);
                    assert(digits_value(whole) > u64::MAX);
                }
            }
            return None;
        }
        proof {
            lemma_digits_value_step(whole, i - from);
            assert(all_digits(whole.take(i - from + 1)));
        }
        mag = mag * 10 + d;
        i = i + 1;
    }
    proof {
        assert(whole.take(to - from) =~= whole);
    }
    Some(mag)
}

/// Parse a whole string as a signed 64-bit integer.  Returns the value
/// exactly when the string is a signed digit run whose value fits `i64`.
pub fn parse_int_string(s: &String) -> (r: Option<i64>)
    ensures
        match r {
            Option::Some(n) => is_int_lexeme(s@) && n as int == int_lexeme_value(s@),
            Option::None => !(is_int_lexeme(s@) && i64::MIN <= int_lexeme_value(s@)
                <= i64::MAX),
        },
{
    let chars = crate::textutil::str_to_chars(s.as_str());
    parse_int_chars(&chars)
}

/// As `parse_int_string`, over a character vector.
pub(crate) fn parse_int_chars(chars: &Vec<char>) -> (r: Option<i64>)
    ensures
        match r {
            Option::Some(n) => is_int_lexeme(chars@) && n as int == int_lexeme_value(chars@),
            Option::None => !(is_int_lexeme(chars@) && i64::MIN <= int_lexeme_value(chars@)
                <= i64::MAX),
        },
{
    let n = chars.len();
    if n == 0 {
        return None;
    }
    let neg = chars[0] == '-';
    let start: usize = if neg {
        1
    } else {
        0
    };
    if start >= n {
        return None;
    }
    let mag_opt = parse_digits_u64(chars, start, n);
    proof {
        if neg {
            assert(chars@.subrange(1, n as int) =~= chars@.drop_first());
        } else {
            assert(chars@.subrange(0, n as int) =~= chars@);
        }
    }
    match mag_opt {
        Option::None => {
            proof {
                if is_int_lexeme(chars@) {
                    if neg {
                        lemma_digits_value_nonneg(chars@.drop_first());
                    } else {
                        lemma_digits_value_nonneg(chars@);
                    }
                }
            }
            None
        },
        Option::Some(mag) => {
            if neg {
                if mag == 9223372036854775808u64 {
                    Some(i64::MIN)
                } else if mag < 9223372036854775808u64 {
                    Some(-(mag as i64))
                } else {
                    None
                }
            } else {
                if mag <= 9223372036854775807u64 {
                    Some(mag as i64)
                } else {
                    None
                }
            }
        },
    }
}



/// Parse a whole character vector as a decimal lexeme and round it to the
/// nearest integer, half away from zero.  Returns the value exactly when the
/// text is a decimal lexeme whose rounded value fits `i64`.
pub(crate) fn parse_decimal_round_chars(chars: &Vec<char>) -> (r: Option<i64>)
    ensures
        match r {
            Option::Some(n) => is_decimal_lexeme(chars@) && n as int == decimal_round_value(
                chars@,
            ),
            Option::None => !(is_decimal_lexeme(chars@) && i64::MIN <= decimal_round_value(chars@)
                <= i64::MAX),
        },
{
    let n = chars.len();
    // find the first decimal point
    let mut i: usize = 0;
    while i < n && chars[i] != '.'
        invariant
            0 <= i <= n,
            n == chars@.len(),
            forall|j: int| 0 <= j < i ==> chars@[j] != '.',
        decreases n - i,
    {
        i = i + 1;
    }
    let dot: usize = i;
    if dot == n {
        // no point: an integer lexeme or nothing
        proof {
            if exists|k: int| decimal_split_at(chars@, k) {
                let k = choose|k: int| decimal_split_at(chars@, k);
                assert(chars@[k] != '.');
            }
        }
        return parse_int_chars(chars);
    }
    // validate and parse the integer part
    if dot == 0 || dot + 1 >= n {
        proof {
            lemma_dot_at_edge(chars@, dot as int);
        }
        return None;
    }
    // the fraction must be all digits and non-empty
    let mut j: usize = dot + 1;
    while j < n
        invariant
            dot + 1 <= j <= n,
            n == chars@.len(),
            0 < dot < n - 1,
            chars@[dot as int] == '.',
            forall|jj: int| 0 <= jj < dot ==> chars@[jj] != '.',
            forall|jj: int| dot < jj < j ==> is_digit(#[trigger] chars@[jj]),
        decreases n - j,
    {
        if !crate::textutil::digit_char(chars[j]) {
            proof {
                lemma_no_valid_split(chars@, dot as int, j as int);
            }
            return None;
        }
        j = j + 1;
    }
    let mut int_part: Vec<char> = Vec::new();
    let mut p: usize = 0;
    while p < dot
        invariant
            0 <= p <= dot <= n,
            n == chars@.len(),
            int_part@ == chars@.subrange(0, p as int),
        decreases dot - p,
    {
        int_part.push(chars[p]);
        proof {
            assert(int_part@ =~= chars@.subrange(0, p + 1 as int));
        }
        p = p + 1;
    }
    proof {
        assert(int_part@ =~= chars@.take(dot as int));
    }
    let ip_opt = parse_int_chars(&int_part);
    let ghost s = chars@;
    proof {
        assert(s.skip(dot + 1).len() == n - dot - 1);
        assert(forall|jj: int|
            0 <= jj < s.skip(dot + 1).len() ==> #[trigger] s.skip(dot + 1)[jj] == s[jj + dot + 1]);
    }
    match ip_opt {
        Option::None => {
            proof {
                lemma_only_split_is_dot(s, dot as int);
                if exists|k: int| decimal_split_at(s, k) {
                    let k = choose|k: int| decimal_split_at(s, k);
                    assert(k == dot as int);
                    assert(is_int_lexeme(s.take(dot as int)));
                    let ipv = int_lexeme_value(s.take(dot as int));
                    // the integer part is out of 64-bit range, so the rounded
                    // value is too, on the same side of zero
                    if s.take(dot as int)[0] == '-' {
                        lemma_digits_value_nonneg(s.take(dot as int).drop_first());
                        assert(ipv < i64::MIN);
                    } else {
                        lemma_digits_value_nonneg(s.take(dot as int));
                        assert(ipv > i64::MAX);
                    }
                }
            }
            None
        },
        Option::Some(ip) => {
            proof {
                assert(decimal_split_at(s, dot as int));
                lemma_only_split_is_dot(s, dot as int);
                let k = choose|k: int| decimal_split_at(s, k);
                assert(k == dot as int);
            }
            let d0 = chars[dot + 1];
            let up = '5' <= d0 && d0 <= '9';
            if chars[0] == '-' {
                if up {
                    if ip == i64::MIN {
                        return None;
                    }
                    Some(ip - 1)
                } else {
                    Some(ip)
                }
            } else {
                if up {
                    if ip == i64::MAX {
                        return None;
                    }
                    Some(ip + 1)
                } else {
                    Some(ip)
                }
            }
        },
    }
}

/// With the first dot strictly inside the text, the only possible split
/// point is that dot, and the text is no plain integer lexeme.
proof fn lemma_only_split_is_dot(s: Seq<char>, dot: int)
    requires
        0 < dot < s.len() - 1,
        s[dot] == '.',
        forall|jj: int| 0 <= jj < dot ==> s[jj] != '.',
    ensures
        forall|k: int| decimal_split_at(s, k) ==> k == dot,
        !is_int_lexeme(s),
{
    if is_int_lexeme(s) {
        if s[0] == '-' {
            assert(s.drop_first()[dot - 1] == s[dot]);
            assert(is_digit(s[dot]));
        } else {
            assert(is_digit(s[dot]));
        }
    }
    assert forall|k: int| decimal_split_at(s, k) implies k == dot by {
        if k < dot {
            assert(s[k] != '.');
        } else if k > dot {
            // the integer part of that split would contain the first dot
            assert(s.take(k)[dot] == s[dot]);
            if s.take(k)[0] == '-' {
                assert(s.take(k).drop_first()[dot - 1] == s[dot]);
                assert(is_digit(s[dot]));
            } else {
                assert(is_digit(s[dot]));
            }
        }
    }
}

proof fn lemma_dot_at_edge(s: Seq<char>, dot: int)
    requires
        0 <= dot < s.len(),
        s[dot] == '.',
        forall|jj: int| 0 <= jj < dot ==> s[jj] != '.',
        dot == 0 || dot == s.len() - 1,
    ensures
        !is_decimal_lexeme(s),
{
    if is_int_lexeme(s) {
        if s[0] == '-' {
            assert(dot >= 1);
            assert(s.drop_first()[dot - 1] == s[dot]);
            assert(is_digit(s[dot]));
        } else {
            assert(is_digit(s[dot]));
        }
    }
    if exists|k: int| decimal_split_at(s, k) {
        let k = choose|k: int| decimal_split_at(s, k);
        if k < dot {
            assert(s[k] != '.');
        } else if k == dot {
            // the split point cannot sit at either edge
            assert(0 < k < s.len() - 1);
        } else {
            // dot < k: the dot would sit inside the integer part
            assert(s.take(k)[dot] == s[dot]);
            if s.take(k)[0] == '-' {
                assert(dot >= 1);
                assert(s.take(k).drop_first()[dot - 1] == s[dot]);
                assert(is_digit(s[dot]));
            } else {
                assert(is_digit(s[dot]));
            }
        }
    }
}

proof fn lemma_no_valid_split(s: Seq<char>, dot: int, j: int)
    requires
        0 < dot < s.len() - 1,
        s[dot] == '.',
        forall|jj: int| 0 <= jj < dot ==> s[jj] != '.',
        dot < j < s.len(),
        !is_digit(s[j]),
        forall|jj: int| dot < jj < j ==> is_digit(#[trigger] s[jj]),
    ensures
        !is_decimal_lexeme(s),
{
    if is_int_lexeme(s) {
        if s[0] == '-' {
            assert(s.drop_first()[dot - 1] == s[dot]);
        } else {
            assert(is_digit(s[dot]));
        }
    }
    if exists|k: int| decimal_split_at(s, k) {
        let k = choose|k: int| decimal_split_at(s, k);
        if k < dot {
            assert(s[k] != '.');
        } else if k > dot {
            // the integer part of that split would contain the first dot
            assert(s.take(k)[dot] == s[dot]);
            if s.take(k)[0] == '-' {
                assert(s.take(k).drop_first()[dot - 1] == s[dot]);
                assert(is_digit(s[dot]));
            } else {
                assert(is_digit(s[dot]));
            }
        } else {
            assert(s.skip(dot + 1)[j - dot - 1] == s[j]);
            assert(is_digit(s[j]));
        }
    }
}

/// Whether a character vector is an integer lexeme.
pub(crate) fn is_int_chars(chars: &Vec<char>) -> (r: bool)
    ensures
        r == is_int_lexeme(chars@),
{
    let n = chars.len();
    if n == 0 {
        return false;
    }
    let neg = chars[0] == '-';
    let start: usize = if neg {
        1
    } else {
        0
    };
    if start >= n {
        return false;
    }
    let mut i = start;
    while i < n
        invariant
            start <= i <= n,
            n == chars@.len(),
            start == if chars@[0] == '-' {
                1int
            } else {
                0int
            },
            forall|j: int| start <= j < i ==> is_digit(#[trigger] chars@[j]),
        decreases n - i,
    {
        if !crate::textutil::digit_char(chars[i]) {
            proof {
                if chars@[0] == '-' {
                    assert(chars@.drop_first()[i - 1] == chars@[i as int]);
                }
            }
            return false;
        }
        i = i + 1;
    }
    proof {
        if chars@[0] == '-' {
            assert(forall|j: int|
                0 <= j < chars@.drop_first().len() ==> chars@.drop_first()[j] == chars@[j + 1]);
        }
    }
    true
}

/// Whether a character vector is a decimal lexeme.
pub(crate) fn is_decimal_chars(chars: &Vec<char>) -> (r: bool)
    ensures
        r == is_decimal_lexeme(chars@),
{
    let n = chars.len();
    // find the first decimal point
    let mut i: usize = 0;
    while i < n && chars[i] != '.'
        invariant
            0 <= i <= n,
            n == chars@.len(),
            forall|j: int| 0 <= j < i ==> chars@[j] != '.',
        decreases n - i,
    {
        i = i + 1;
    }
    let dot: usize = i;
    if dot == n {
        proof {
            if exists|k: int| decimal_split_at(chars@, k) {
                let k = choose|k: int| decimal_split_at(chars@, k);
                assert(chars@[k] != '.');
            }
        }
        return is_int_chars(chars);
    }
    if dot == 0 || dot + 1 >= n {
        proof {
            lemma_dot_at_edge(chars@, dot as int);
        }
        return false;
    }
    let mut j: usize = dot + 1;
    while j < n
        invariant
            dot + 1 <= j <= n,
            n == chars@.len(),
            0 < dot < n - 1,
            chars@[dot as int] == '.',
            forall|jj: int| 0 <= jj < dot ==> chars@[jj] != '.',
            forall|jj: int| dot < jj < j ==> is_digit(#[trigger] chars@[jj]),
        decreases n - j,
    {
        if !crate::textutil::digit_char(chars[j]) {
            proof {
                lemma_no_valid_split(chars@, dot as int, j as int);
            }
            return false;
        }
        j = j + 1;
    }
    let mut int_part: Vec<char> = Vec::new();
    let mut p: usize = 0;
    while p < dot
        invariant
            0 <= p <= dot <= n,
            n == chars@.len(),
            int_part@ == chars@.subrange(0, p as int),
        decreases dot - p,
    {
        int_part.push(chars[p]);
        proof {
            assert(int_part@ =~= chars@.subrange(0, p + 1 as int));
        }
        p = p + 1;
    }
    proof {
        assert(int_part@ =~= chars@.take(dot as int));
    }
    let ip_ok = is_int_chars(&int_part);
    proof {
        lemma_only_split_is_dot(chars@, dot as int);
        assert(chars@.skip(dot + 1).len() == n - dot - 1);
        assert(forall|jj: int|
            0 <= jj < chars@.skip(dot + 1).len() ==> #[trigger] chars@.skip(dot + 1)[jj]
                == chars@[jj + dot + 1]);
        if ip_ok {
            assert(decimal_split_at(chars@, dot as int));
        } else {
            if exists|k: int| decimal_split_at(chars@, k) {
                let k = choose|k: int| decimal_split_at(chars@, k);
            }
        }
    }
    ip_ok
}

/// The canonical decimal rendering of a natural number.
pub open spec fn nat_repr(n: int) -> Seq<char>
    decreases n,
{
    if n < 0 {
        Seq::empty()
    } else if n < 10 {
        seq![((48 + n) as u8) as char]
    } else {
        nat_repr(n / 10).push(((48 + n % 10) as u8) as char)
    }
}

/// The canonical decimal rendering of an integer, with its sign.
pub open spec fn int_repr(n: int) -> Seq<char> {
    if n < 0 {
        seq!['-'] + nat_repr(-n)
    } else {
        nat_repr(n)
    }
}

pub(crate) fn push_nat_repr(n: u64, out: &mut Vec<char>)
    ensures
        final(out)@ == old(out)@ + nat_repr(n as int),
    decreases n,
{
    if n < 10 {
        out.push(((48 + n) as u8) as char);
        proof {
            assert(out@ =~= old(out)@ + nat_repr(n as int));
        }
    } else {
        push_nat_repr(n / 10, out);
        out.push(((48 + n % 10) as u8) as char);
        proof {
            assert(out@ =~= old(out)@ + nat_repr(n as int));
        }
    }
}

/// Render a signed integer as decimal text.
pub fn int_to_string(n: i64) -> (r: String)
    ensures
        r@ == int_repr(n as int),
{
    let mut out: Vec<char> = Vec::new();
    if n < 0 {
        out.push('-');
        let mag: u64 = if n == i64::MIN {
            9223372036854775808u64
        } else {
            (-n) as u64
        };
        push_nat_repr(mag, &mut out);
        proof {
            assert(out@ =~= int_repr(n as int));
        }
    } else {
        push_nat_repr(n as u64, &mut out);
    }
    crate::textutil::chars_to_string(&out)
}

} // verus!
