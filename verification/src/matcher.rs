//! Fuzzy candidate selection used by enum and string-literal coercion.
//! Candidates carry a canonical name and the strings that may stand for it
//! (rendered name, description).  Matching goes through four tiers: exact,
//! case-insensitive, substring containment, then token-overlap scoring; a
//! tier with exactly one matching candidate wins, a tie fails.

use vstd::prelude::*;
use crate::flags::MatchQuality;
use crate::textutil::fold_seq;
use crate::textutil::is_alnum;
use crate::textutil::trim_seq;

verus! {

/// `needle` occurs contiguously inside `hay`.
pub open spec fn contains_sub_spec(hay: Seq<char>, needle: Seq<char>) -> bool {
    exists|k: int|
        0 <= k && k + needle.len() <= hay.len() && #[trigger] hay.subrange(k, k + needle.len())
            == needle
}

/// Length of the alphanumeric run starting at `i`.
pub open spec fn alnum_run(s: Seq<char>, i: int) -> int
    decreases s.len() - i when 0 <= i <= s.len()
{
    if i < s.len() && is_alnum(s[i]) {
        1 + alnum_run(s, i + 1)
    } else {
        0
    }
}

pub proof fn lemma_alnum_run_bounds(s: Seq<char>, i: int)
    requires
        0 <= i <= s.len(),
    ensures
        0 <= alnum_run(s, i) <= s.len() - i,
    decreases s.len() - i,
{
    if i < s.len() && is_alnum(s[i]) {
        lemma_alnum_run_bounds(s, i + 1);
    }
}

/// The alphanumeric tokens of `s`, in order, from position `i` on.
pub open spec fn tokens_from(s: Seq<char>, i: int) -> Seq<Seq<char>>
    decreases s.len() - i when 0 <= i <= s.len()
{
    if i >= s.len() {
        Seq::empty()
    } else if !is_alnum(s[i]) {
        tokens_from(s, i + 1)
    } else {
        proof {
            lemma_alnum_run_bounds(s, i + 1);
        }
        seq![s.subrange(i, i + alnum_run(s, i))] + tokens_from(s, i + alnum_run(s, i))
    }
}

/// The alphanumeric tokens of `s`.
pub open spec fn tokens_of(s: Seq<char>) -> Seq<Seq<char>> {
    tokens_from(s, 0)
}

/// Some token in `ts` equals `t`.
pub open spec fn has_token(ts: Seq<Seq<char>>, t: Seq<char>) -> bool {
    exists|i: int| 0 <= i < ts.len() && ts[i] == t
}

/// How many distinct tokens of `a` occur in `b`.
pub open spec fn token_overlap(a: Seq<Seq<char>>, b: Seq<Seq<char>>) -> nat
    decreases a,
{
    if a.len() == 0 {
        0
    } else {
        token_overlap(a.drop_last(), b) + (if has_token(b, a.last()) && !has_token(
            a.drop_last(),
            a.last(),
        ) {
            1nat
        } else {
            0nat
        })
    }
}

/// The mathematical image of a list of strings.
pub open spec fn strings_view(s: Seq<String>) -> Seq<Seq<char>> {
    s.map_values(|x: String| x@)
}

/// The mathematical image of a candidate list: canonical name and the
/// strings that may stand for it.
pub open spec fn cands_view(cands: Seq<(String, Vec<String>)>) -> Seq<(Seq<char>, Seq<Seq<char>>)> {
    cands.map_values(|c: (String, Vec<String>)| (c.0@, strings_view(c.1@)))
}

/// Candidate `i`'s strings.
pub open spec fn cand_strings(cands: Seq<(Seq<char>, Seq<Seq<char>>)>, i: int) -> Seq<Seq<char>> {
    cands[i].1
}

/// Tier 1: some candidate string equals the trimmed input exactly.
pub open spec fn t1_at(cands: Seq<(Seq<char>, Seq<Seq<char>>)>, inp: Seq<char>, i: int, j: int) -> bool {
    0 <= j < cand_strings(cands, i).len() && cand_strings(cands, i)[j] == inp
}

pub open spec fn t1(cands: Seq<(Seq<char>, Seq<Seq<char>>)>, inp: Seq<char>, i: int) -> bool {
    exists|j: int| t1_at(cands, inp, i, j)
}

/// Tier 2: equal after ASCII case folding.
pub open spec fn t2_at(cands: Seq<(Seq<char>, Seq<Seq<char>>)>, inp: Seq<char>, i: int, j: int) -> bool {
    0 <= j < cand_strings(cands, i).len() && fold_seq(cand_strings(cands, i)[j]) == fold_seq(inp)
}

pub open spec fn t2(cands: Seq<(Seq<char>, Seq<Seq<char>>)>, inp: Seq<char>, i: int) -> bool {
    exists|j: int| t2_at(cands, inp, i, j)
}

/// Tier 3: one side contains the other, case-folded, both non-empty.
pub open spec fn t3_at(cands: Seq<(Seq<char>, Seq<Seq<char>>)>, inp: Seq<char>, i: int, j: int) -> bool {
    let fa = fold_seq(cand_strings(cands, i)[j]);
    let fi = fold_seq(inp);
    &&& 0 <= j < cand_strings(cands, i).len()
    &&& fa.len() > 0
    &&& fi.len() > 0
    &&& (contains_sub_spec(fa, fi) || contains_sub_spec(fi, fa))
}

pub open spec fn t3(cands: Seq<(Seq<char>, Seq<Seq<char>>)>, inp: Seq<char>, i: int) -> bool {
    exists|j: int| t3_at(cands, inp, i, j)
}

/// Tier 4 score of one candidate string against the input tokens.
pub open spec fn t4_at(cands: Seq<(Seq<char>, Seq<Seq<char>>)>, inp: Seq<char>, i: int, j: int) -> nat {
    token_overlap(tokens_of(fold_seq(inp)), tokens_of(fold_seq(cand_strings(cands, i)[j])))
}

/// Tier 4 score of a candidate: its best string's overlap with the input.
pub open spec fn t4_score_upto(
    cands: Seq<(Seq<char>, Seq<Seq<char>>)>,
    inp: Seq<char>,
    i: int,
    n: int,
) -> nat
    decreases n,
{
    if n <= 0 {
        0
    } else {
        let prev = t4_score_upto(cands, inp, i, n - 1);
        let here = t4_at(cands, inp, i, n - 1);
        if here > prev {
            here
        } else {
            prev
        }
    }
}

pub open spec fn t4_score(cands: Seq<(Seq<char>, Seq<Seq<char>>)>, inp: Seq<char>, i: int) -> nat {
    t4_score_upto(cands, inp, i, cand_strings(cands, i).len() as int)
}

/// A unique candidate matches at tier 1.
pub open spec fn unique1(cands: Seq<(Seq<char>, Seq<Seq<char>>)>, inp: Seq<char>, i: int) -> bool {
    &&& 0 <= i < cands.len()
    &&& t1(cands, inp, i)
    &&& forall|k: int| 0 <= k < cands.len() && #[trigger] t1(cands, inp, k) ==> k == i
}

pub open spec fn unique2(cands: Seq<(Seq<char>, Seq<Seq<char>>)>, inp: Seq<char>, i: int) -> bool {
    &&& 0 <= i < cands.len()
    &&& t2(cands, inp, i)
    &&& forall|k: int| 0 <= k < cands.len() && #[trigger] t2(cands, inp, k) ==> k == i
}

pub open spec fn unique3(cands: Seq<(Seq<char>, Seq<Seq<char>>)>, inp: Seq<char>, i: int) -> bool {
    &&& 0 <= i < cands.len()
    &&& t3(cands, inp, i)
    &&& forall|k: int| 0 <= k < cands.len() && #[trigger] t3(cands, inp, k) ==> k == i
}

/// Candidate `i` is the strict best positive scorer at tier 4.
pub open spec fn unique4(cands: Seq<(Seq<char>, Seq<Seq<char>>)>, inp: Seq<char>, i: int) -> bool {
    &&& 0 <= i < cands.len()
    &&& t4_score(cands, inp, i) > 0
    &&& forall|k: int|
        0 <= k < cands.len() && k != i ==> #[trigger] t4_score(cands, inp, k) < t4_score(
            cands,
            inp,
            i,
        )
}

/// Any candidate matches at the given tier.
pub open spec fn any1(cands: Seq<(Seq<char>, Seq<Seq<char>>)>, inp: Seq<char>) -> bool {
    exists|i: int| 0 <= i < cands.len() && t1(cands, inp, i)
}

pub open spec fn any2(cands: Seq<(Seq<char>, Seq<Seq<char>>)>, inp: Seq<char>) -> bool {
    exists|i: int| 0 <= i < cands.len() && t2(cands, inp, i)
}

pub open spec fn any3(cands: Seq<(Seq<char>, Seq<Seq<char>>)>, inp: Seq<char>) -> bool {
    exists|i: int| 0 <= i < cands.len() && t3(cands, inp, i)
}

/// The full matching function: the winning candidate's index, the match
/// quality, and whether only a description string (index over zero) carried
/// the match.  `None` means no tier produced a unique winner.
pub open spec fn match_string_spec(cands: Seq<(Seq<char>, Seq<Seq<char>>)>, raw: Seq<char>) -> Option<
    (int, MatchQuality, bool),
> {
    let inp = trim_seq(raw);
    if any1(cands, inp) {
        if exists|i: int| unique1(cands, inp, i) {
            let i = choose|i: int| unique1(cands, inp, i);
            Option::Some((i, MatchQuality::ExactMatch, !t1_at(cands, inp, i, 0)))
        } else {
            Option::None
        }
    } else if any2(cands, inp) {
        if exists|i: int| unique2(cands, inp, i) {
            let i = choose|i: int| unique2(cands, inp, i);
            Option::Some((i, MatchQuality::CaseMatch, !t2_at(cands, inp, i, 0)))
        } else {
            Option::None
        }
    } else if any3(cands, inp) {
        if exists|i: int| unique3(cands, inp, i) {
            let i = choose|i: int| unique3(cands, inp, i);
            Option::Some((i, MatchQuality::SubstringMatch, !t3_at(cands, inp, i, 0)))
        } else {
            Option::None
        }
    } else {
        if exists|i: int| unique4(cands, inp, i) {
            let i = choose|i: int| unique4(cands, inp, i);
            Option::Some(
                (
                    i,
                    MatchQuality::FuzzyMatch,
                    !(cand_strings(cands, i).len() > 0 && t4_at(cands, inp, i, 0) == t4_score(
                        cands,
                        inp,
                        i,
                    )),
                ),
            )
        } else {
            Option::None
        }
    }
}

proof fn lemma_choose_unique1(cands: Seq<(Seq<char>, Seq<Seq<char>>)>, inp: Seq<char>, i: int)
    requires
        unique1(cands, inp, i),
    ensures
        (choose|k: int| unique1(cands, inp, k)) == i,
{
    let c = choose|k: int| unique1(cands, inp, k);
    assert(unique1(cands, inp, c));
    assert(t1(cands, inp, i));
}

proof fn lemma_choose_unique2(cands: Seq<(Seq<char>, Seq<Seq<char>>)>, inp: Seq<char>, i: int)
    requires
        unique2(cands, inp, i),
    ensures
        (choose|k: int| unique2(cands, inp, k)) == i,
{
    let c = choose|k: int| unique2(cands, inp, k);
    assert(unique2(cands, inp, c));
    assert(t2(cands, inp, i));
}

proof fn lemma_choose_unique3(cands: Seq<(Seq<char>, Seq<Seq<char>>)>, inp: Seq<char>, i: int)
    requires
        unique3(cands, inp, i),
    ensures
        (choose|k: int| unique3(cands, inp, k)) == i,
{
    let c = choose|k: int| unique3(cands, inp, k);
    assert(unique3(cands, inp, c));
    assert(t3(cands, inp, i));
}

proof fn lemma_choose_unique4(cands: Seq<(Seq<char>, Seq<Seq<char>>)>, inp: Seq<char>, i: int)
    requires
        unique4(cands, inp, i),
    ensures
        (choose|k: int| unique4(cands, inp, k)) == i,
{
    let c = choose|k: int| unique4(cands, inp, k);
    assert(unique4(cands, inp, c));
    if c != i {
        assert(t4_score(cands, inp, c) < t4_score(cands, inp, i));
        assert(t4_score(cands, inp, i) < t4_score(cands, inp, c));
    }
}

/// Whether candidate `i` matches the trimmed input at tier 1, and whether
/// its first string (the rendered name) does.
fn t1_check(cands: &Vec<(String, Vec<String>)>, i: usize, trimmed: &String) -> (r: (bool, bool))
    requires
        i < cands@.len(),
    ensures
        r.0 == t1(cands_view(cands@), trimmed@, i as int),
        r.1 == t1_at(cands_view(cands@), trimmed@, i as int, 0),
{
    let ghost cs = cand_strings(cands_view(cands@), i as int);
    let n = cands[i].1.len();
    let mut any = false;
    let mut j0 = false;
    let mut j: usize = 0;
    while j < n
        invariant
            i < cands@.len(),
            n == cands@[i as int].1@.len(),
            cs == cand_strings(cands_view(cands@), i as int),
            cs.len() == n,
            0 <= j <= n,
            forall|p: int| 0 <= p < cs.len() ==> cs[p] == cands@[i as int].1@[p]@,
            any == exists|p: int| 0 <= p < j && t1_at(cands_view(cands@), trimmed@, i as int, p),
            j0 == (0 < j && t1_at(cands_view(cands@), trimmed@, i as int, 0)),
        decreases n - j,
    {
        if cands[i].1[j] == *trimmed {
            proof {
                assert(t1_at(cands_view(cands@), trimmed@, i as int, j as int));
            }
            any = true;
            if j == 0 {
                j0 = true;
            }
        }
        j = j + 1;
    }
    proof {
        if any {
            assert(t1(cands_view(cands@), trimmed@, i as int));
        } else {
            if t1(cands_view(cands@), trimmed@, i as int) {
                let p = choose|p: int| t1_at(cands_view(cands@), trimmed@, i as int, p);
                assert(0 <= p < n);
            }
        }
    }
    (any, j0)
}

/// As `t1_check`, after ASCII case folding.
fn t2_check(cands: &Vec<(String, Vec<String>)>, i: usize, trimmed: &String) -> (r: (bool, bool))
    requires
        i < cands@.len(),
    ensures
        r.0 == t2(cands_view(cands@), trimmed@, i as int),
        r.1 == t2_at(cands_view(cands@), trimmed@, i as int, 0),
{
    let ghost cs = cand_strings(cands_view(cands@), i as int);
    let n = cands[i].1.len();
    let mut any = false;
    let mut j0 = false;
    let mut j: usize = 0;
    while j < n
        invariant
            i < cands@.len(),
            n == cands@[i as int].1@.len(),
            cs == cand_strings(cands_view(cands@), i as int),
            cs.len() == n,
            0 <= j <= n,
            forall|p: int| 0 <= p < cs.len() ==> cs[p] == cands@[i as int].1@[p]@,
            any == exists|p: int| 0 <= p < j && t2_at(cands_view(cands@), trimmed@, i as int, p),
            j0 == (0 < j && t2_at(cands_view(cands@), trimmed@, i as int, 0)),
        decreases n - j,
    {
        if crate::textutil::eq_fold(&cands[i].1[j], trimmed) {
            proof {
                assert(t2_at(cands_view(cands@), trimmed@, i as int, j as int));
            }
            any = true;
            if j == 0 {
                j0 = true;
            }
        }
        j = j + 1;
    }
    proof {
        if any {
            assert(t2(cands_view(cands@), trimmed@, i as int));
        } else {
            if t2(cands_view(cands@), trimmed@, i as int) {
                let p = choose|p: int| t2_at(cands_view(cands@), trimmed@, i as int, p);
                assert(0 <= p < n);
            }
        }
    }
    (any, j0)
}

/// As `t1_check`, by substring containment of folded strings.
fn t3_check(cands: &Vec<(String, Vec<String>)>, i: usize, trimmed: &String) -> (r: (bool, bool))
    requires
        i < cands@.len(),
    ensures
        r.0 == t3(cands_view(cands@), trimmed@, i as int),
        r.1 == t3_at(cands_view(cands@), trimmed@, i as int, 0),
{
    let ghost cs = cand_strings(cands_view(cands@), i as int);
    let fi = crate::textutil::fold_chars(trimmed);
    let n = cands[i].1.len();
    let mut any = false;
    let mut j0 = false;
    let mut j: usize = 0;
    while j < n
        invariant
            i < cands@.len(),
            n == cands@[i as int].1@.len(),
            cs == cand_strings(cands_view(cands@), i as int),
            cs.len() == n,
            0 <= j <= n,
            fi@ == fold_seq(trimmed@),
            forall|p: int| 0 <= p < cs.len() ==> cs[p] == cands@[i as int].1@[p]@,
            any == exists|p: int| 0 <= p < j && t3_at(cands_view(cands@), trimmed@, i as int, p),
            j0 == (0 < j && t3_at(cands_view(cands@), trimmed@, i as int, 0)),
        decreases n - j,
    {
        let fa = crate::textutil::fold_chars(&cands[i].1[j]);
        let hit = fa.len() > 0 && fi.len() > 0 && (contains_sub(&fa, &fi) || contains_sub(
            &fi,
            &fa,
        ));
        if hit {
            proof {
                assert(t3_at(cands_view(cands@), trimmed@, i as int, j as int));
            }
            any = true;
            if j == 0 {
                j0 = true;
            }
        } else {
            proof {
                assert(!t3_at(cands_view(cands@), trimmed@, i as int, j as int));
            }
        }
        j = j + 1;
    }
    proof {
        if any {
            assert(t3(cands_view(cands@), trimmed@, i as int));
        } else {
            if t3(cands_view(cands@), trimmed@, i as int) {
                let p = choose|p: int| t3_at(cands_view(cands@), trimmed@, i as int, p);
                assert(0 <= p < n);
            }
        }
    }
    (any, j0)
}

/// Tier 4 score of candidate `i`, and its first string's own score.
fn t4_check(cands: &Vec<(String, Vec<String>)>, i: usize, itoks: &Vec<Vec<char>>, trimmed: &String)
    -> (r: (usize, usize))
    requires
        i < cands@.len(),
        itoks@.map_values(|x: Vec<char>| x@) == tokens_of(fold_seq(trimmed@)),
    ensures
        r.0 == t4_score(cands_view(cands@), trimmed@, i as int),
        cands@[i as int].1@.len() > 0 ==> r.1 == t4_at(cands_view(cands@), trimmed@, i as int, 0),
{
    let ghost cs = cand_strings(cands_view(cands@), i as int);
    let n = cands[i].1.len();
    let mut best: usize = 0;
    let mut first: usize = 0;
    let mut j: usize = 0;
    while j < n
        invariant
            i < cands@.len(),
            n == cands@[i as int].1@.len(),
            cs == cand_strings(cands_view(cands@), i as int),
            cs.len() == n,
            0 <= j <= n,
            itoks@.map_values(|x: Vec<char>| x@) == tokens_of(fold_seq(trimmed@)),
            forall|p: int| 0 <= p < cs.len() ==> cs[p] == cands@[i as int].1@[p]@,
            best == t4_score_upto(cands_view(cands@), trimmed@, i as int, j as int),
            0 < j && n > 0 ==> first == t4_at(cands_view(cands@), trimmed@, i as int, 0),
        decreases n - j,
    {
        let fa = crate::textutil::fold_chars(&cands[i].1[j]);
        let atoks = tokenize(&fa);
        let ov = token_overlap_exec(itoks, &atoks);
        proof {
            assert(ov == t4_at(cands_view(cands@), trimmed@, i as int, j as int));
        }
        if j == 0 {
            first = ov;
        }
        if ov > best {
            best = ov;
        }
        j = j + 1;
    }
    (best, first)
}

/// Fuzzy candidate selection: the winning candidate's index, the quality of
/// the match, and whether only a description string carried it.  `None`
/// exactly when no tier has a unique winner.
pub fn match_string(cands: &Vec<(String, Vec<String>)>, input: &String) -> (r: Option<
    (usize, MatchQuality, bool),
>)
    ensures
        match (r, match_string_spec(cands_view(cands@), input@)) {
            (Option::Some((i, q, d)), Option::Some(s)) => i as int == s.0 && q == s.1 && d == s.2
                && i < cands@.len(),
            (Option::None, Option::None) => true,
            _ => false,
        },
{
    let ghost inp = trim_seq(input@);
    let trimmed = crate::textutil::trim_string(input);
    let n = cands.len();

    // tier 1: exact
    let mut count: usize = 0;
    let mut first: usize = 0;
    let mut first_d = false;
    let mut second: usize = 0;
    let mut i: usize = 0;
    while i < n
        invariant
            0 <= i <= n,
            n == cands@.len(),
            trimmed@ == inp,
            count <= i,
            count == 0 ==> forall|k: int| 0 <= k < i ==> !t1(cands_view(cands@), inp, k),
            count == 1 ==> first < i && t1(cands_view(cands@), inp, first as int) && first_d == !t1_at(
                cands_view(cands@),
                inp,
                first as int,
                0,
            ) && forall|k: int| 0 <= k < i && k != first ==> !t1(cands_view(cands@), inp, k),
            count >= 2 ==> first < i && second < i && first != second && t1(
                cands_view(cands@),
                inp,
                first as int,
            ) && t1(cands_view(cands@), inp, second as int),
        decreases n - i,
    {
        let (hit, at0) = t1_check(cands, i, &trimmed);
        if hit {
            if count == 0 {
                first = i;
                first_d = !at0;
            } else if count == 1 {
                second = i;
            }
            count = count + 1;
        }
        i = i + 1;
    }
    if count == 1 {
        proof {
            assert(unique1(cands_view(cands@), inp, first as int));
            lemma_choose_unique1(cands_view(cands@), inp, first as int);
        }
        return Some((first, MatchQuality::ExactMatch, first_d));
    }
    if count >= 2 {
        proof {
            assert(any1(cands_view(cands@), inp));
            if exists|k: int| unique1(cands_view(cands@), inp, k) {
                let u = choose|k: int| unique1(cands_view(cands@), inp, k);
                assert(t1(cands_view(cands@), inp, first as int));
                assert(t1(cands_view(cands@), inp, second as int));
            }
        }
        return None;
    }
    proof {
        assert(!any1(cands_view(cands@), inp));
    }

    // tier 2: case-insensitive
    let mut count: usize = 0;
    let mut first: usize = 0;
    let mut first_d = false;
    let mut second: usize = 0;
    let mut i: usize = 0;
    while i < n
        invariant
            0 <= i <= n,
            n == cands@.len(),
            trimmed@ == inp,
            count <= i,
            count == 0 ==> forall|k: int| 0 <= k < i ==> !t2(cands_view(cands@), inp, k),
            count == 1 ==> first < i && t2(cands_view(cands@), inp, first as int) && first_d == !t2_at(
                cands_view(cands@),
                inp,
                first as int,
                0,
            ) && forall|k: int| 0 <= k < i && k != first ==> !t2(cands_view(cands@), inp, k),
            count >= 2 ==> first < i && second < i && first != second && t2(
                cands_view(cands@),
                inp,
                first as int,
            ) && t2(cands_view(cands@), inp, second as int),
        decreases n - i,
    {
        let (hit, at0) = t2_check(cands, i, &trimmed);
        if hit {
            if count == 0 {
                first = i;
                first_d = !at0;
            } else if count == 1 {
                second = i;
            }
            count = count + 1;
        }
        i = i + 1;
    }
    if count == 1 {
        proof {
            assert(unique2(cands_view(cands@), inp, first as int));
            lemma_choose_unique2(cands_view(cands@), inp, first as int);
        }
        return Some((first, MatchQuality::CaseMatch, first_d));
    }
    if count >= 2 {
        proof {
            assert(any2(cands_view(cands@), inp));
            if exists|k: int| unique2(cands_view(cands@), inp, k) {
                let u = choose|k: int| unique2(cands_view(cands@), inp, k);
                assert(t2(cands_view(cands@), inp, first as int));
                assert(t2(cands_view(cands@), inp, second as int));
            }
        }
        return None;
    }
    proof {
        assert(!any2(cands_view(cands@), inp));
    }

    // tier 3: substring containment
    let mut count: usize = 0;
    let mut first: usize = 0;
    let mut first_d = false;
    let mut second: usize = 0;
    let mut i: usize = 0;
    while i < n
        invariant
            0 <= i <= n,
            n == cands@.len(),
            trimmed@ == inp,
            count <= i,
            count == 0 ==> forall|k: int| 0 <= k < i ==> !t3(cands_view(cands@), inp, k),
            count == 1 ==> first < i && t3(cands_view(cands@), inp, first as int) && first_d == !t3_at(
                cands_view(cands@),
                inp,
                first as int,
                0,
            ) && forall|k: int| 0 <= k < i && k != first ==> !t3(cands_view(cands@), inp, k),
            count >= 2 ==> first < i && second < i && first != second && t3(
                cands_view(cands@),
                inp,
                first as int,
            ) && t3(cands_view(cands@), inp, second as int),
        decreases n - i,
    {
        let (hit, at0) = t3_check(cands, i, &trimmed);
        if hit {
            if count == 0 {
                first = i;
                first_d = !at0;
            } else if count == 1 {
                second = i;
            }
            count = count + 1;
        }
        i = i + 1;
    }
    if count == 1 {
        proof {
            assert(unique3(cands_view(cands@), inp, first as int));
            lemma_choose_unique3(cands_view(cands@), inp, first as int);
        }
        return Some((first, MatchQuality::SubstringMatch, first_d));
    }
    if count >= 2 {
        proof {
            assert(any3(cands_view(cands@), inp));
            if exists|k: int| unique3(cands_view(cands@), inp, k) {
                let u = choose|k: int| unique3(cands_view(cands@), inp, k);
                assert(t3(cands_view(cands@), inp, first as int));
                assert(t3(cands_view(cands@), inp, second as int));
            }
        }
        return None;
    }
    proof {
        assert(!any3(cands_view(cands@), inp));
    }

    // tier 4: token-overlap scoring, strict best wins
    let fi = crate::textutil::fold_chars(&trimmed);
    let itoks = tokenize(&fi);
    let mut scores: Vec<usize> = Vec::new();
    let mut firsts: Vec<usize> = Vec::new();
    let mut i: usize = 0;
    while i < n
        invariant
            0 <= i <= n,
            n == cands@.len(),
            trimmed@ == inp,
            itoks@.map_values(|x: Vec<char>| x@) == tokens_of(fold_seq(inp)),
            scores@.len() == i,
            firsts@.len() == i,
            forall|k: int|
                0 <= k < i ==> #[trigger] scores@[k] == t4_score(cands_view(cands@), inp, k),
            forall|k: int|
                0 <= k < i && cands@[k].1@.len() > 0 ==> #[trigger] firsts@[k] == t4_at(
                    cands_view(cands@),
                    inp,
                    k,
                    0,
                ),
        decreases n - i,
    {
        let (sc, f0) = t4_check(cands, i, &itoks, &trimmed);
        scores.push(sc);
        firsts.push(f0);
        i = i + 1;
    }
    let mut best: usize = 0;
    let mut best_score: usize = 0;
    let mut ties: usize = 0;
    let mut i: usize = 0;
    while i < n
        invariant
            0 <= i <= n,
            n == cands@.len(),
            scores@.len() == n,
            forall|k: int|
                0 <= k < n ==> #[trigger] scores@[k] == t4_score(cands_view(cands@), inp, k),
            ties <= i,
            i > 0 ==> best < i && best_score == t4_score(cands_view(cands@), inp, best as int),
            i == 0 ==> best_score == 0 && ties == 0,
            forall|k: int| 0 <= k < i ==> t4_score(cands_view(cands@), inp, k) <= best_score,
            i > 0 ==> ties >= 1,
            ties == 1 ==> forall|k: int|
                0 <= k < i && k != best ==> t4_score(cands_view(cands@), inp, k) < best_score,
            ties >= 2 ==> exists|k: int|
                0 <= k < i && k != best && #[trigger] t4_score(cands_view(cands@), inp, k) == best_score,
        decreases n - i,
    {
        let sc = scores[i];
        if i == 0 || sc > best_score {
            best = i;
            best_score = sc;
            ties = 1;
        } else if sc == best_score {
            ties = ties + 1;
        }
        i = i + 1;
    }
    if n > 0 && best_score > 0 && ties == 1 {
        proof {
            assert(unique4(cands_view(cands@), inp, best as int));
            lemma_choose_unique4(cands_view(cands@), inp, best as int);
        }
        let d = !(cands[best].1.len() > 0 && firsts[best] == best_score);
        return Some((best, MatchQuality::FuzzyMatch, d));
    }
    proof {
        if exists|k: int| unique4(cands_view(cands@), inp, k) {
            let u = choose|k: int| unique4(cands_view(cands@), inp, k);
            assert(t4_score(cands_view(cands@), inp, u) > 0);
            assert(n > 0);
            assert(t4_score(cands_view(cands@), inp, u) <= best_score);
            if u != best {
                assert(t4_score(cands_view(cands@), inp, best as int) < t4_score(cands_view(cands@), inp, u));
            }
            assert(u == best);
            assert(best_score > 0);
            assert(ties >= 2);
            let k2 = choose|k: int|
                0 <= k < n && k != best && #[trigger] t4_score(cands_view(cands@), inp, k) == best_score;
            assert(t4_score(cands_view(cands@), inp, k2) < best_score);
        }
    }
    None
}

/// Whether `needle` occurs inside `hay`.
fn contains_sub(hay: &Vec<char>, needle: &Vec<char>) -> (r: bool)
    ensures
        r == contains_sub_spec(hay@, needle@),
{
    let hl = hay.len();
    let nl = needle.len();
    if nl > hl {
        return false;
    }
    if nl == 0 {
        proof {
            assert(hay@.subrange(0, 0 + needle@.len() as int) =~= needle@);
        }
        return true;
    }
    let mut k: usize = 0;
    while k <= hl - nl
        invariant
            1 <= nl <= hl,
            hl == hay@.len(),
            nl == needle@.len(),
            0 <= k <= hl - nl + 1,
            forall|k2: int|
                0 <= k2 < k ==> #[trigger] hay@.subrange(k2, k2 + nl as int) != needle@,
        decreases hl - nl - k + 1,
    {
        let mut m: usize = 0;
        let mut matched = true;
        while m < nl
            invariant
                1 <= nl <= hl,
                hl == hay@.len(),
                nl == needle@.len(),
                0 <= k <= hl - nl,
                0 <= m <= nl,
                matched ==> forall|j: int| 0 <= j < m ==> hay@[k + j] == needle@[j],
                !matched ==> hay@.subrange(k as int, k + nl as int) != needle@,
            decreases nl - m,
        {
            if hay[k + m] != needle[m] {
                proof {
                    assert(hay@.subrange(k as int, k + nl as int)[m as int] == hay@[k + m]);
                }
                matched = false;
                m = nl;
            } else {
                m = m + 1;
            }
        }
        if matched {
            proof {
                assert(hay@.subrange(k as int, k + nl as int) =~= needle@);
            }
            return true;
        }
        k = k + 1;
    }
    proof {
        assert forall|k2: int|
            0 <= k2 && k2 + needle@.len() <= hay@.len() implies #[trigger] hay@.subrange(
            k2,
            k2 + needle@.len(),
        ) != needle@ by {
            assert(k2 < k);
        }
    }
    false
}

/// The alphanumeric tokens of a folded character sequence.
fn tokenize(chars: &Vec<char>) -> (r: Vec<Vec<char>>)
    ensures
        r@.map_values(|t: Vec<char>| t@) == tokens_of(chars@),
{
    let n = chars.len();
    let mut out: Vec<Vec<char>> = Vec::new();
    let mut i: usize = 0;
    while i < n
        invariant
            0 <= i <= n,
            n == chars@.len(),
            out@.map_values(|t: Vec<char>| t@) + tokens_from(chars@, i as int) == tokens_of(
                chars@,
            ),
        decreases n - i,
    {
        if !crate::textutil::alnum_char(chars[i]) {
            i = i + 1;
        } else {
            let start = i;
            let mut j: usize = i;
            while j < n && crate::textutil::alnum_char(chars[j])
                invariant
                    start <= j <= n,
                    n == chars@.len(),
                    forall|p: int| start <= p < j ==> is_alnum(#[trigger] chars@[p]),
                decreases n - j,
            {
                j = j + 1;
            }
            proof {
                lemma_alnum_run_exact(chars@, start as int, j as int);
            }
            let mut tok: Vec<char> = Vec::new();
            let mut p: usize = start;
            while p < j
                invariant
                    start <= p <= j <= n,
                    n == chars@.len(),
                    tok@ == chars@.subrange(start as int, p as int),
                decreases j - p,
            {
                tok.push(chars[p]);
                proof {
                    assert(tok@ =~= chars@.subrange(start as int, p + 1 as int));
                }
                p = p + 1;
            }
            let ghost prev = out@;
            out.push(tok);
            proof {
                assert(out@.map_values(|t: Vec<char>| t@) =~= prev.map_values(
                    |t: Vec<char>| t@,
                ).push(chars@.subrange(start as int, j as int)));
                assert(prev.map_values(|t: Vec<char>| t@).push(
                    chars@.subrange(start as int, j as int),
                ) =~= prev.map_values(|t: Vec<char>| t@) + seq![
                    chars@.subrange(start as int, j as int),
                ]);
            }
            i = j;
        }
    }
    proof {
        assert(out@.map_values(|t: Vec<char>| t@) + tokens_from(chars@, n as int)
            =~= out@.map_values(|t: Vec<char>| t@));
    }
    out
}

/// An inclusive run `[start, j)` of alphanumerics ending at a boundary has
/// exactly the length `alnum_run` gives it.
proof fn lemma_alnum_run_exact(s: Seq<char>, start: int, j: int)
    requires
        0 <= start <= j <= s.len(),
        forall|p: int| start <= p < j ==> is_alnum(#[trigger] s[p]),
        j == s.len() || !is_alnum(s[j]),
    ensures
        alnum_run(s, start) == j - start,
    decreases j - start,
{
    if start < j {
        lemma_alnum_run_exact(s, start + 1, j);
    }
}

/// Whether a token list holds a given token.
fn has_token_exec(ts: &Vec<Vec<char>>, t: &Vec<char>) -> (r: bool)
    ensures
        r == has_token(ts@.map_values(|x: Vec<char>| x@), t@),
{
    let ghost view = ts@.map_values(|x: Vec<char>| x@);
    let n = ts.len();
    let mut i: usize = 0;
    while i < n
        invariant
            0 <= i <= n,
            n == ts@.len(),
            view == ts@.map_values(|x: Vec<char>| x@),
            view.len() == n,
            forall|j: int| 0 <= j < i ==> #[trigger] view[j] != t@,
        decreases n - i,
    {
        proof {
            assert(view[i as int] == ts@[i as int]@);
        }
        if eq_chars(&ts[i], t) {
            return true;
        }
        i = i + 1;
    }
    proof {
        assert(!has_token(view, t@));
    }
    false
}

/// Character-vector equality.
fn eq_chars(a: &Vec<char>, b: &Vec<char>) -> (r: bool)
    ensures
        r == (a@ == b@),
{
    let n = a.len();
    if n != b.len() {
        return false;
    }
    let mut i: usize = 0;
    while i < n
        invariant
            0 <= i <= n,
            n == a@.len() == b@.len(),
            forall|j: int| 0 <= j < i ==> a@[j] == b@[j],
        decreases n - i,
    {
        if a[i] != b[i] {
            return false;
        }
        i = i + 1;
    }
    proof {
        assert(a@ =~= b@);
    }
    true
}

/// Distinct tokens of `a` that occur in `b`.
fn token_overlap_exec(a: &Vec<Vec<char>>, b: &Vec<Vec<char>>) -> (r: usize)
    ensures
        r == token_overlap(
            a@.map_values(|x: Vec<char>| x@),
            b@.map_values(|x: Vec<char>| x@),
        ),
{
    let ghost av = a@.map_values(|x: Vec<char>| x@);
    let ghost bv = b@.map_values(|x: Vec<char>| x@);
    let n = a.len();
    let mut count: usize = 0;
    let mut i: usize = 0;
    while i < n
        invariant
            0 <= i <= n,
            n == a@.len(),
            av == a@.map_values(|x: Vec<char>| x@),
            bv == b@.map_values(|x: Vec<char>| x@),
            count == token_overlap(av.take(i as int), bv),
            count <= i,
        decreases n - i,
    {
        // a token counts once: only if it is in b and not seen earlier in a
        let mut prefix: Vec<Vec<char>> = Vec::new();
        let mut p: usize = 0;
        while p < i
            invariant
                0 <= p <= i <= n,
                n == a@.len(),
                prefix@.len() == p,
                forall|q: int| 0 <= q < p ==> prefix@[q]@ == a@[q]@,
            decreases i - p,
        {
            prefix.push(clone_chars(&a[p]));
            p = p + 1;
        }
        proof {
            assert(prefix@.map_values(|x: Vec<char>| x@) =~= av.take(i as int));
            assert(av.take(i + 1).drop_last() =~= av.take(i as int));
            assert(av.take(i + 1).last() == av[i as int]);
        }
        let in_b = has_token_exec(b, &a[i]);
        let seen = has_token_exec(&prefix, &a[i]);
        if in_b && !seen {
            count = count + 1;
        }
        i = i + 1;
    }
    proof {
        assert(av.take(n as int) =~= av);
    }
    count
}

/// A copy of a character vector.
fn clone_chars(a: &Vec<char>) -> (r: Vec<char>)
    ensures
        r@ == a@,
{
    let n = a.len();
    let mut out: Vec<char> = Vec::new();
    let mut i: usize = 0;
    while i < n
        invariant
            0 <= i <= n,
            n == a@.len(),
            out@ == a@.subrange(0, i as int),
        decreases n - i,
    {
        out.push(a[i]);
        proof {
            assert(out@ =~= a@.subrange(0, i + 1 as int));
        }
        i = i + 1;
    }
    proof {
        assert(out@ =~= a@);
    }
    out
}

} // verus!
