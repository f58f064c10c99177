//! Character and string helpers shared by the matcher, the coercer and the
//! parser: ASCII case folding, whitespace trimming, and the decimal lexemes
//! used for numbers (non-integral numbers are carried as their decimal text,
//! so all reasoning here is over characters and integers).

use vstd::prelude::*;

verus! {

/// ASCII whitespace, the only whitespace the engine normalizes.
pub open spec fn is_ws(c: char) -> bool {
    c == ' ' || c == '\t' || c == '\n' || c == '\r'
}

/// Decimal digit.
pub open spec fn is_digit(c: char) -> bool {
    '0' <= c && c <= '9'
}

/// ASCII letter or digit; the unit fuzzy matching tokenizes on.
pub open spec fn is_alnum(c: char) -> bool {
    ('a' <= c && c <= 'z') || ('A' <= c && c <= 'Z') || is_digit(c)
}

/// ASCII lower-casing of one character; other characters are untouched.
pub open spec fn fold_char(c: char) -> char {
    if 'A' <= c && c <= 'Z' {
        ((c as u8) + 32) as char
    } else {
        c
    }
}

/// ASCII lower-casing of a whole character sequence.
pub open spec fn fold_seq(s: Seq<char>) -> Seq<char> {
    s.map_values(|c: char| fold_char(c))
}

/// Leading whitespace removed.
pub open spec fn trim_front(s: Seq<char>) -> Seq<char>
    decreases s,
{
    if s.len() > 0 && is_ws(s[0]) {
        trim_front(s.drop_first())
    } else {
        s
    }
}

/// Trailing whitespace removed.
pub open spec fn trim_back(s: Seq<char>) -> Seq<char>
    decreases s,
{
    if s.len() > 0 && is_ws(s.last()) {
        trim_back(s.drop_last())
    } else {
        s
    }
}

/// Whitespace removed from both ends.
pub open spec fn trim_seq(s: Seq<char>) -> Seq<char> {
    trim_back(trim_front(s))
}

pub(crate) fn ws_char(c: char) -> (r: bool)
    ensures
        r == is_ws(c),
{
    c == ' ' || c == '\t' || c == '\n' || c == '\r'
}

pub(crate) fn digit_char(c: char) -> (r: bool)
    ensures
        r == is_digit(c),
{
    '0' <= c && c <= '9'
}

pub(crate) fn alnum_char(c: char) -> (r: bool)
    ensures
        r == is_alnum(c),
{
    ('a' <= c && c <= 'z') || ('A' <= c && c <= 'Z') || ('0' <= c && c <= '9')
}

pub(crate) fn fold_char_exec(c: char) -> (r: char)
    ensures
        r == fold_char(c),
{
    if 'A' <= c && c <= 'Z' {
        ((c as u8) + 32) as char
    } else {
        c
    }
}

/// Relies on std's `String` collecting an iterator of `char`s: the resulting
/// string holds exactly the given characters in order.
#[verifier::external_body]
pub(crate) fn chars_to_string(chars: &Vec<char>) -> (r: String)
    ensures
        r@ == chars@,
{
    chars.iter().collect()
}

/// The characters of a string slice as a vector.
pub(crate) fn str_to_chars(s: &str) -> (r: Vec<char>)
    ensures
        r@ == s@,
{
    let n = s.unicode_len();
    let mut out: Vec<char> = Vec::new();
    let mut i: usize = 0;
    while i < n
        invariant
            0 <= i <= n,
            n == s@.len(),
            out@ == s@.subrange(0, i as int),
        decreases n - i,
    {
        let c = s.get_char(i);
        out.push(c);
        proof {
            assert(out@ =~= s@.subrange(0, i + 1 as int));
        }
        i = i + 1;
    }
    proof {
        assert(out@ =~= s@);
    }
    out
}

/// ASCII-folded copy of a string.
pub(crate) fn fold_string(s: &String) -> (r: String)
    ensures
        r@ == fold_seq(s@),
{
    let chars = str_to_chars(s.as_str());
    let n = chars.len();
    let mut out: Vec<char> = Vec::new();
    let mut i: usize = 0;
    while i < n
        invariant
            0 <= i <= n,
            n == chars@.len(),
            chars@ == s@,
            out@ == fold_seq(s@.subrange(0, i as int)),
        decreases n - i,
    {
        out.push(fold_char_exec(chars[i]));
        proof {
            assert(out@ =~= fold_seq(s@.subrange(0, i + 1 as int)));
        }
        i = i + 1;
    }
    proof {
        assert(s@.subrange(0, s@.len() as int) =~= s@);
    }
    chars_to_string(&out)
}

/// ASCII-folded characters of a string.
pub(crate) fn fold_chars(s: &String) -> (r: Vec<char>)
    ensures
        r@ == fold_seq(s@),
{
    let chars = str_to_chars(s.as_str());
    let n = chars.len();
    let mut out: Vec<char> = Vec::new();
    let mut i: usize = 0;
    while i < n
        invariant
            0 <= i <= n,
            n == chars@.len(),
            chars@ == s@,
            out@ == fold_seq(s@.subrange(0, i as int)),
        decreases n - i,
    {
        out.push(fold_char_exec(chars[i]));
        proof {
            assert(out@ =~= fold_seq(s@.subrange(0, i + 1 as int)));
        }
        i = i + 1;
    }
    proof {
        assert(s@.subrange(0, s@.len() as int) =~= s@);
    }
    out
}

/// A copy of a string vector.
pub(crate) fn clone_string_vec(v: &Vec<String>) -> (r: Vec<String>)
    ensures
        r@ == v@,
{
    let n = v.len();
    let mut out: Vec<String> = Vec::new();
    let mut i: usize = 0;
    while i < n
        invariant
            0 <= i <= n,
            n == v@.len(),
            out@ == v@.subrange(0, i as int),
        decreases n - i,
    {
        out.push(v[i].clone());
        proof {
            assert(out@ =~= v@.subrange(0, i + 1 as int));
        }
        i = i + 1;
    }
    proof {
        assert(out@ =~= v@);
    }
    out
}

/// Whether two strings are equal after ASCII case folding.
pub(crate) fn eq_fold(a: &String, b: &String) -> (r: bool)
    ensures
        r == (fold_seq(a@) == fold_seq(b@)),
{
    let fa = fold_string(a);
    let fb = fold_string(b);
    fa == fb
}

proof fn lemma_trim_front_subrange(s: Seq<char>, k: int)
    requires
        0 <= k <= s.len(),
        forall|j: int| 0 <= j < k ==> is_ws(s[j]),
        k < s.len() ==> !is_ws(s[k]),
    ensures
        trim_front(s) =~= s.subrange(k, s.len() as int),
    decreases s,
{
    if k == 0 {
        if s.len() > 0 && is_ws(s[0]) {
            assert(false);
        }
        assert(trim_front(s) =~= s.subrange(0, s.len() as int));
    } else {
        assert(is_ws(s[0]));
        lemma_trim_front_subrange(s.drop_first(), k - 1);
        assert(s.drop_first().subrange(k - 1, s.drop_first().len() as int) =~= s.subrange(
            k,
            s.len() as int,
        ));
    }
}

proof fn lemma_trim_back_subrange(s: Seq<char>, k: int)
    requires
        0 <= k <= s.len(),
        forall|j: int| k <= j < s.len() ==> is_ws(s[j]),
        k > 0 ==> !is_ws(s[k - 1]),
    ensures
        trim_back(s) =~= s.subrange(0, k),
    decreases s,
{
    if k == s.len() {
        if s.len() > 0 && is_ws(s.last()) {
            assert(false);
        }
        assert(trim_back(s) =~= s.subrange(0, s.len() as int));
    } else {
        assert(is_ws(s.last()));
        assert(forall|j: int| k <= j < s.drop_last().len() ==> s.drop_last()[j] == s[j]);
        lemma_trim_back_subrange(s.drop_last(), k);
        assert(s.drop_last().subrange(0, k) =~= s.subrange(0, k));
    }
}

/// A trimmed copy of a string.
pub(crate) fn trim_string(s: &String) -> (r: String)
    ensures
        r@ == trim_seq(s@),
{
    let chars = str_to_chars(s.as_str());
    let n = chars.len();
    let mut start: usize = 0;
    while start < n && ws_char(chars[start])
        invariant
            0 <= start <= n,
            n == chars@.len(),
            chars@ == s@,
            forall|j: int| 0 <= j < start ==> is_ws(s@[j]),
        decreases n - start,
    {
        start = start + 1;
    }
    let mut end: usize = n;
    while end > start && ws_char(chars[end - 1])
        invariant
            start <= end <= n,
            n == chars@.len(),
            chars@ == s@,
            forall|j: int| 0 <= j < start ==> is_ws(s@[j]),
            start < n ==> !is_ws(s@[start as int]),
            forall|j: int| end <= j < n ==> is_ws(s@[j]),
        decreases end,
    {
        end = end - 1;
    }
    let mut out: Vec<char> = Vec::new();
    let mut i: usize = start;
    while i < end
        invariant
            start <= i <= end <= n,
            n == chars@.len(),
            chars@ == s@,
            out@ == s@.subrange(start as int, i as int),
        decreases end - i,
    {
        out.push(chars[i]);
        proof {
            assert(out@ =~= s@.subrange(start as int, i + 1 as int));
        }
        i = i + 1;
    }
    proof {
        if start == end {
            // everything is whitespace up to start and from end on
            lemma_trim_front_subrange(s@, start as int);
            if start < n {
                assert(is_ws(s@[start as int]));
                assert(!is_ws(s@[start as int]));
            }
            assert(trim_front(s@) =~= s@.subrange(start as int, n as int));
            lemma_trim_back_subrange(trim_front(s@), 0);
            assert(trim_seq(s@) =~= out@);
        } else {
            lemma_trim_front_subrange(s@, start as int);
            let t = s@.subrange(start as int, n as int);
            assert(forall|j: int|
                end - start <= j < t.len() ==> is_ws(#[trigger] t[j]) && t[j] == s@[
                    j + start as int
                ]);
            assert(!is_ws(t[end - start - 1]));
            lemma_trim_back_subrange(t, end - start);
            assert(t.subrange(0, end - start) =~= s@.subrange(start as int, end as int));
            assert(trim_seq(s@) =~= out@);
        }
    }
    chars_to_string(&out)
}

} // verus!
