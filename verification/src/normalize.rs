//! Per-record column-count normalization and the drift heuristic.
//!
//! A row is reconciled against the expected header count: trailing blank
//! fields are dropped, a shortfall is padded, and a single extra column —
//! the source tool adding a sensor mid-log — is removed at an inferred
//! position that is cached for the rest of the file.  The inference compares
//! the previous row against the current row at every candidate offset and
//! keeps the offset with the least summed numeric deviation.
//!
//! Numbers are read as fixed-point values with nine fractional digits:
//! an optional sign, up to eighteen integer digits, and a fraction of which
//! the first nine digits count.  Anything else — exponents included — is a
//! non-numeric field and contributes nothing to a score.

use vstd::prelude::*;
use vstd::std_specs::vec::vec_index_mut;

use crate::errors::ProcessError;
use crate::models::clone_string_vec;
use crate::overlay::pad_to;
use crate::resolver::DataProcessor;
use crate::text::{clean_spec, is_blank, norm_bounds, trim_spec};

verus! {

/// Scores saturate here; the cap dominates every reachable sum.
pub const SCORE_CAP: i128 = 1_000_000_000_000_000_000_000_000_000_000;

/// A decimal digit.
pub open spec fn is_digit(c: char) -> bool {
    '0' <= c && c <= '9'
}

/// The numeric value of one digit.
pub open spec fn digit_val(c: char) -> int {
    c as int - '0' as int
}

/// Every character is a digit.
pub open spec fn all_digits(s: Seq<char>) -> bool {
    forall|i: int| 0 <= i < s.len() ==> is_digit(s[i])
}

/// The value of a digit string, most significant first.
pub open spec fn digits_val(s: Seq<char>) -> int
    decreases s,
{
    if s.len() == 0 {
        0
    } else {
        10 * digits_val(s.drop_last()) + digit_val(s.last())
    }
}

/// Ten to the `n`.
pub open spec fn pow10(n: nat) -> int
    decreases n,
{
    if n == 0 {
        1
    } else {
        10 * pow10((n - 1) as nat)
    }
}

/// The first position of `c` in `s`, or the length.
pub open spec fn find_char(s: Seq<char>, c: char) -> int
    decreases s,
{
    if s.len() == 0 {
        0
    } else if s[0] == c {
        0
    } else {
        1 + find_char(s.drop_first(), c)
    }
}

/// Absolute value.
pub open spec fn iabs(x: int) -> int {
    if x < 0 {
        -x
    } else {
        x
    }
}

/// The sign a field carries.
pub open spec fn num_sign(s: Seq<char>) -> int {
    if s.len() > 0 && s[0] == '-' {
        -1
    } else {
        1
    }
}

/// The field behind its optional sign.
pub open spec fn num_rest(s: Seq<char>) -> Seq<char> {
    if s.len() > 0 && (s[0] == '+' || s[0] == '-') {
        s.drop_first()
    } else {
        s
    }
}

/// What a sign-free field reads as: the value in billionths, or nothing
/// for a non-numeric field.
pub open spec fn spec_magnitude(rest: Seq<char>) -> Option<int> {
    let p = find_char(rest, '.');
    let int_part = rest.subrange(0, p);
    let frac_all = if p < rest.len() {
        rest.subrange(p + 1, rest.len() as int)
    } else {
        Seq::<char>::empty()
    };
    if !all_digits(int_part) || !all_digits(frac_all) {
        None
    } else if int_part.len() + frac_all.len() == 0 {
        None
    } else if int_part.len() > 18 {
        None
    } else {
        let frac = if frac_all.len() <= 9 {
            frac_all
        } else {
            frac_all.subrange(0, 9)
        };
        Some(digits_val(int_part) * pow10(9) + digits_val(frac) * pow10((9 - frac.len()) as nat))
    }
}

/// What a field reads as in the library's fixed-point model: the signed
/// value in billionths, or nothing for a non-numeric field.
pub open spec fn parse_fixed(s: Seq<char>) -> Option<int> {
    match spec_magnitude(num_rest(s)) {
        Some(m) => Some(num_sign(s) * m),
        None => None,
    }
}

/// `pow10` at the two exec scales.
proof fn lemma_pow10_values()
    ensures
        pow10(9) == 1_000_000_000,
        pow10(18) == 1_000_000_000_000_000_000,
{
    reveal_with_fuel(pow10, 19);
}

/// A digit string's value sits below ten to its length.
proof fn lemma_digits_val_bound(s: Seq<char>)
    requires
        all_digits(s),
    ensures
        0 <= digits_val(s) < pow10(s.len() as nat),
    decreases s,
{
    if s.len() == 0 {
    } else {
        assert(all_digits(s.drop_last())) by {
            assert(forall|i: int|
                0 <= i < s.len() - 1 ==> s.drop_last()[i] == s[i] && is_digit(s[i]));
        }
        lemma_digits_val_bound(s.drop_last());
        assert(0 <= digit_val(s.last()) <= 9);
    }
}

/// Ten to anything is at least one.
proof fn lemma_pow10_pos(n: nat)
    ensures
        pow10(n) >= 1,
    decreases n,
{
    if n > 0 {
        lemma_pow10_pos((n - 1) as nat);
    }
}

/// Ten to the power is monotone.
proof fn lemma_pow10_mono(a: nat, b: nat)
    requires
        a <= b,
    ensures
        pow10(a) <= pow10(b),
    decreases b,
{
    if a < b {
        lemma_pow10_mono(a, (b - 1) as nat);
        lemma_pow10_pos((b - 1) as nat);
    }
}

/// A first occurrence at `i` pins [`find_char`] to `i`; no occurrence pins
/// it to the length.
proof fn lemma_find_char_is(s: Seq<char>, c: char, i: int)
    requires
        0 <= i <= s.len(),
        forall|j: int| 0 <= j < i ==> s[j] != c,
        i < s.len() ==> s[i] == c,
    ensures
        find_char(s, c) == i,
    decreases s,
{
    if s.len() == 0 {
    } else if s[0] == c {
        assert(i == 0);
    } else {
        assert(i >= 1);
        lemma_find_char_is(s.drop_first(), c, i - 1);
    }
}

/// What [`find_char`] returns: the first occurrence, or the length.
proof fn lemma_find_char_props(s: Seq<char>, c: char)
    ensures
        0 <= find_char(s, c) <= s.len(),
        find_char(s, c) < s.len() ==> s[find_char(s, c)] == c,
        forall|j: int| 0 <= j < find_char(s, c) ==> s[j] != c,
    decreases s,
{
    if s.len() > 0 && s[0] != c {
        lemma_find_char_props(s.drop_first(), c);
        assert forall|j: int| 0 <= j < find_char(s, c) implies s[j] != c by {
            if j > 0 {
                assert(s.drop_first()[j - 1] == s[j]);
            }
        }
    }
}

/// A non-digit, non-dot character before any dot makes the field
/// non-numeric.
proof fn lemma_magnitude_none_nondigit(rest: Seq<char>, i: int)
    requires
        0 <= i < rest.len(),
        !is_digit(rest[i]),
        rest[i] != '.',
        forall|j: int| 0 <= j < i ==> rest[j] != '.',
    ensures
        spec_magnitude(rest) is None,
{
    let p = find_char(rest, '.');
    lemma_find_char_props(rest, '.');
    assert(p > i) by {
        if p <= i {
            assert(p < rest.len());
        }
    }
    assert(!all_digits(rest.subrange(0, p))) by {
        assert(rest.subrange(0, p)[i] == rest[i]);
    }
}

/// Nineteen leading integer digits make the field non-numeric.
proof fn lemma_magnitude_none_long(rest: Seq<char>)
    requires
        rest.len() > 18,
        forall|j: int| 0 <= j <= 18 ==> rest[j] != '.',
    ensures
        spec_magnitude(rest) is None,
{
    let p = find_char(rest, '.');
    lemma_find_char_props(rest, '.');
    assert(p > 18) by {
        if p <= 18 {
            assert(p < rest.len());
        }
    }
    assert(rest.subrange(0, p).len() > 18);
}

/// A non-digit after the dot makes the field non-numeric.
proof fn lemma_magnitude_none_bad_frac(rest: Seq<char>, dotpos: int, i: int)
    requires
        0 <= dotpos < i < rest.len(),
        rest[dotpos] == '.',
        forall|j: int| 0 <= j < dotpos ==> rest[j] != '.',
        !is_digit(rest[i]),
    ensures
        spec_magnitude(rest) is None,
{
    lemma_find_char_is(rest, '.', dotpos);
    let frac_all = rest.subrange(dotpos + 1, rest.len() as int);
    assert(!all_digits(frac_all)) by {
        assert(frac_all[i - dotpos - 1] == rest[i]);
    }
}

/// The sign-free scan; mirrors [`spec_magnitude`].
#[verifier::loop_isolation(false)]
#[verifier::rlimit(60)]
#[verifier::spinoff_prover]
fn parse_magnitude(rest: &str) -> (r: Option<i128>)
    ensures
        match r {
            Some(m) => spec_magnitude(rest@) == Some(m as int) && 0 <= m
                <= 2_000_000_000_000_000_000_000_000_000,
            None => spec_magnitude(rest@) is None,
        },
{
    proof {
        lemma_pow10_values();
    }
    let n = rest.unicode_len();

    // Integer digits.
    let mut i: usize = 0;
    let mut iv: i64 = 0;
    while i < n && rest.get_char(i) != '.'
        invariant
            i <= n,
            i <= 18,
            forall|j: int| 0 <= j < i ==> (is_digit(rest@[j]) && rest@[j] != '.'),
            iv == digits_val(rest@.subrange(0, i as int)),
            0 <= iv < pow10(i as nat),
        decreases n - i,
    {
        let c = rest.get_char(i);
        if !('0' <= c && c <= '9') {
            proof {
                lemma_magnitude_none_nondigit(rest@, i as int);
            }
            return None;
        }
        if i == 18 {
            proof {
                lemma_magnitude_none_long(rest@);
            }
            return None;
        }
        proof {
            lemma_pow10_mono((i + 1) as nat, 18);
            assert(pow10((i + 1) as nat) == 10 * pow10(i as nat));
        }
        let d = char_digit(c);
        let ghost before = rest@.subrange(0, i as int);
        iv = iv * 10 + (d as i64);
        i += 1;
        proof {
            assert(rest@.subrange(0, i as int).drop_last() =~= before);
            assert(rest@.subrange(0, i as int).last() == rest@[i - 1]);
        }
    }
    let icount = i;
    let ghost int_part = rest@.subrange(0, icount as int);
    proof {
        lemma_find_char_is(rest@, '.', icount as int);
        assert(all_digits(int_part));
        lemma_digits_val_bound(int_part);
        lemma_pow10_mono(icount as nat, 18);
    }

    // Fraction digits: the first nine count, the rest are only validated.
    let mut fv: i64 = 0;
    let mut fcount: usize = 0;
    let mut fseen: usize = 0;
    let has_dot = i < n;
    let ghost dotpos = icount as int;
    if has_dot {
        i += 1;
        while i < n
            invariant
                dotpos + 1 <= i <= n,
                i - dotpos - 1 == fseen,
                fcount == if fseen <= 9 { fseen as int } else { 9int },
                forall|j: int| dotpos < j < i ==> is_digit(rest@[j]),
                fv == digits_val(rest@.subrange(dotpos + 1, dotpos + 1 + fcount as int)),
                0 <= fv < pow10(fcount as nat),
            decreases n - i,
        {
            let c = rest.get_char(i);
            if !('0' <= c && c <= '9') {
                proof {
                    lemma_magnitude_none_bad_frac(rest@, dotpos, i as int);
                }
                return None;
            }
            if fcount < 9 {
                proof {
                    lemma_pow10_mono((fcount + 1) as nat, 9);
                    assert(pow10((fcount + 1) as nat) == 10 * pow10(fcount as nat));
                }
                let d = char_digit(c);
                let ghost before = rest@.subrange(dotpos + 1, dotpos + 1 + fcount as int);
                fv = fv * 10 + (d as i64);
                fcount += 1;
                proof {
                    assert(rest@.subrange(dotpos + 1, dotpos + 1 + fcount as int).drop_last()
                        =~= before);
                    assert(rest@.subrange(dotpos + 1, dotpos + 1 + fcount as int).last() == rest@[
                        dotpos + fcount as int]);
                }
            }
            fseen += 1;
            i += 1;
        }
    }
    if icount == 0 && fseen == 0 {
        proof {
            lemma_find_char_is(rest@, '.', 0);
            if has_dot {
                assert(rest@.len() == 1 && rest@[0] == '.');
                assert(rest@.subrange(1, 1).len() == 0);
            } else {
                assert(rest@.len() == 0);
            }
        }
        return None;
    }

    // Scale the fraction to nine digits.
    let mut scale: i64 = 1;
    let mut z: usize = 0;
    while z < 9 - fcount
        invariant
            0 <= z <= 9 - fcount,
            scale == pow10(z as nat),
            1 <= scale <= 1_000_000_000,
        decreases 9 - fcount - z,
    {
        proof {
            lemma_pow10_mono((z + 1) as nat, 9);
            assert(pow10((z + 1) as nat) == 10 * pow10(z as nat));
        }
        scale = scale * 10;
        z += 1;
    }
    proof {
        assert(scale == pow10((9 - fcount) as nat));
        lemma_pow10_mono(fcount as nat, 9);
        assert(0 <= fv <= 1_000_000_000);
        assert(0 <= iv <= 999_999_999_999_999_999i64);
    }

    let iv_big: i128 = (iv as i128) * 1_000_000_000;
    proof {
        assert((iv as i128) * 1_000_000_000 <= 999_999_999_999_999_999i128 * 1_000_000_000
            && (iv as i128) * 1_000_000_000 >= 0) by (nonlinear_arith)
            requires
                0 <= (iv as i128) <= 999_999_999_999_999_999i128,
        ;
    }
    proof {
        assert((fv as i128) * (scale as i128) <= 1_000_000_000i128 * 1_000_000_000 && (fv as i128)
            * (scale as i128) >= 0) by (nonlinear_arith)
            requires
                0 <= (fv as i128) <= 1_000_000_000i128,
                0 <= (scale as i128) <= 1_000_000_000i128,
        ;
    }
    let fv_big: i128 = (fv as i128) * (scale as i128);
    let m: i128 = iv_big + fv_big;
    proof {
        let p = find_char(rest@, '.');
        assert(p == icount as int);
        let frac_all = if p < rest@.len() {
            rest@.subrange(p + 1, rest@.len() as int)
        } else {
            Seq::<char>::empty()
        };
        let frac = if frac_all.len() <= 9 {
            frac_all
        } else {
            frac_all.subrange(0, 9)
        };
        if has_dot {
            assert(frac_all =~= rest@.subrange(dotpos + 1, rest@.len() as int));
            assert(frac_all.len() == fseen);
            assert(all_digits(frac_all));
            assert(frac =~= rest@.subrange(dotpos + 1, dotpos + 1 + fcount as int));
            assert(digits_val(frac) == fv);
        } else {
            assert(p == rest@.len());
            assert(frac.len() == 0);
            assert(fv == 0 && fcount == 0);
            assert(digits_val(frac) == 0);
        }
        assert(frac.len() == fcount as int);
        assert(iv_big as int == digits_val(int_part) * pow10(9));
        assert(fv_big as int == digits_val(frac) * pow10((9 - frac.len()) as nat));
        assert(spec_magnitude(rest@) == Some(m as int));
    }
    Some(m)
}

/// Read a field in the fixed-point model; mirrors [`parse_fixed`].
pub fn parse_fixed_str(s: &str) -> (r: Option<i128>)
    ensures
        match r {
            Some(v) => parse_fixed(s@) == Some(v as int) && -2_000_000_000_000_000_000_000_000_000
                <= v <= 2_000_000_000_000_000_000_000_000_000,
            None => parse_fixed(s@) is None,
        },
{
    let n = s.unicode_len();
    let mut start: usize = 0;
    let mut negative: bool = false;
    if n > 0 {
        let c0 = s.get_char(0);
        if c0 == '+' || c0 == '-' {
            start = 1;
            negative = c0 == '-';
        }
    }
    let rest = s.substring_char(start, n);
    proof {
        assert(rest@ =~= num_rest(s@));
        assert(negative == (num_sign(s@) == -1));
    }
    match parse_magnitude(rest) {
        Some(m) => {
            if negative {
                Some(-m)
            } else {
                Some(m)
            }
        },
        None => None,
    }
}

/// The numeric value of a digit character.
fn char_digit(c: char) -> (d: u32)
    requires
        is_digit(c),
    ensures
        d == digit_val(c),
        d <= 9,
{
    (c as u32) - ('0' as u32)
}


/// Where scoring starts: the two timestamp columns are skipped.
pub open spec fn start_idx(prev: Seq<Seq<char>>) -> int {
    if prev.len() < 2 {
        prev.len() as int
    } else {
        2
    }
}

/// Saturating score addition.
pub open spec fn cap_add(acc: int, d: int) -> int {
    if acc + d > SCORE_CAP as int {
        SCORE_CAP as int
    } else {
        acc + d
    }
}

/// The absolute numeric deviation of two fields, when both are numeric.
pub open spec fn pair_diff(a: Seq<char>, b: Seq<char>) -> Option<int> {
    match (parse_fixed(a), parse_fixed(b)) {
        (Some(x), Some(y)) => Some(iabs(x - y)),
        _ => None,
    }
}

/// Fold the candidate's deviations over `prev[i..]`: the saturating score
/// and how many field pairs were numeric.
pub open spec fn score_from(
    prev: Seq<Seq<char>>,
    curr: Seq<Seq<char>>,
    k: int,
    i: int,
    acc: int,
    used: int,
) -> (int, int)
    decreases prev.len() - i,
{
    if i < 0 || i >= prev.len() {
        (acc, used)
    } else {
        let b = if i < k {
            curr[i]
        } else {
            curr[i + 1]
        };
        match pair_diff(prev[i], b) {
            Some(d) => score_from(prev, curr, k, i + 1, cap_add(acc, d), used + 1),
            None => score_from(prev, curr, k, i + 1, acc, used),
        }
    }
}

/// A candidate's score: the summed deviation, or — when no pair was
/// numeric — the distance from the row's end.
pub open spec fn cand_score(prev: Seq<Seq<char>>, curr: Seq<Seq<char>>, k: int) -> int {
    let r = score_from(prev, curr, k, start_idx(prev), 0, 0);
    if r.1 == 0 {
        iabs(prev.len() - k)
    } else {
        r.0
    }
}

/// The best candidate from `k` on, strict improvement winning.
pub open spec fn best_from(
    prev: Seq<Seq<char>>,
    curr: Seq<Seq<char>>,
    k: int,
    best_idx: int,
    best_score: int,
) -> int
    decreases curr.len() - k,
{
    if k < 0 || k >= curr.len() {
        best_idx
    } else {
        let sc = cand_score(prev, curr, k);
        if sc < best_score {
            best_from(prev, curr, k + 1, k, sc)
        } else {
            best_from(prev, curr, k + 1, best_idx, best_score)
        }
    }
}

/// The index to drop from `curr` so that it aligns best with `prev`.
pub open spec fn spec_infer(prev: Seq<Seq<char>>, curr: Seq<Seq<char>>) -> int {
    best_from(prev, curr, 0, prev.len() as int, SCORE_CAP as int + 1)
}

/// The chosen index never leaves the row.
proof fn lemma_best_from_range(
    prev: Seq<Seq<char>>,
    curr: Seq<Seq<char>>,
    k: int,
    best_idx: int,
    best_score: int,
)
    requires
        0 <= k,
        0 <= best_idx <= prev.len(),
        curr.len() == prev.len() + 1,
    ensures
        0 <= best_from(prev, curr, k, best_idx, best_score) <= prev.len(),
    decreases curr.len() - k,
{
    if 0 <= k < curr.len() {
        let sc = cand_score(prev, curr, k);
        if sc < best_score {
            lemma_best_from_range(prev, curr, k + 1, k, sc);
        } else {
            lemma_best_from_range(prev, curr, k + 1, best_idx, best_score);
        }
    }
}

/// One candidate's score; mirrors [`cand_score`].
#[verifier::loop_isolation(false)]
fn candidate_score(prev: &Vec<String>, curr: &Vec<String>, k: usize) -> (r: i128)
    requires
        curr@.len() == prev@.len() + 1,
        k < curr@.len(),
    ensures
        r as int == cand_score(prev.deep_view(), curr.deep_view(), k as int),
        0 <= r <= SCORE_CAP,
{
    let ghost pv = prev.deep_view();
    let ghost cv = curr.deep_view();
    proof {
        assert(pv.len() == prev@.len());
        assert(cv.len() == curr@.len());
    }
    let n = prev.len();
    let start = if n < 2 {
        n
    } else {
        2
    };
    proof {
        assert(start as int == start_idx(pv));
    }
    let mut i = start;
    let mut score: i128 = 0;
    let mut used: usize = 0;
    while i < n
        invariant
            start <= i <= n,
            used <= i,
            0 <= score <= SCORE_CAP,
            score_from(pv, cv, k as int, start as int, 0, 0) == score_from(
                pv,
                cv,
                k as int,
                i as int,
                score as int,
                used as int,
            ),
        decreases n - i,
    {
        proof {
            assert(pv[i as int] == prev@[i as int]@);
            if i < k {
                assert(cv[i as int] == curr@[i as int]@);
            } else {
                assert(cv[i as int + 1] == curr@[i as int + 1]@);
            }
        }
        let a = parse_fixed_str(prev[i].as_str());
        let b = if i < k {
            parse_fixed_str(curr[i].as_str())
        } else {
            parse_fixed_str(curr[i + 1].as_str())
        };
        match (a, b) {
            (Some(x), Some(y)) => {
                let d: i128 = if x >= y {
                    x - y
                } else {
                    y - x
                };
                let sum = score + d;
                if sum > SCORE_CAP {
                    score = SCORE_CAP;
                } else {
                    score = sum;
                }
                used += 1;
            },
            _ => {},
        }
        i += 1;
    }
    if used == 0 {
        let fb: i128 = if k <= n {
            (n - k) as i128
        } else {
            (k - n) as i128
        };
        proof {
            assert(fb as int == iabs(pv.len() - k as int));
        }
        fb
    } else {
        score
    }
}

impl DataProcessor {
    /// Infer which field to drop from `curr` so that it aligns best with
    /// `prev`; mirrors [`spec_infer`].
    #[verifier::loop_isolation(false)]
    pub fn infer_drop_index_for_extra_column(prev: &Vec<String>, curr: &Vec<String>) -> (r: usize)
        requires
            curr@.len() == prev@.len() + 1,
        ensures
            r as int == spec_infer(prev.deep_view(), curr.deep_view()),
            r <= prev@.len(),
    {
        let ghost pv = prev.deep_view();
        let ghost cv = curr.deep_view();
        proof {
            assert(pv.len() == prev@.len());
            assert(cv.len() == curr@.len());
        }
        let m = curr.len();
        let n = prev.len();
        let mut best_idx: usize = n;
        let mut best_score: i128 = SCORE_CAP + 1;
        let mut k: usize = 0;
        while k < m
            invariant
                0 <= k <= m,
                best_idx <= n,
                0 <= best_score <= SCORE_CAP + 1,
                spec_infer(pv, cv) == best_from(pv, cv, k as int, best_idx as int, best_score as int),
            decreases m - k,
        {
            let sc = candidate_score(prev, curr, k);
            if sc < best_score {
                best_idx = k;
                best_score = sc;
            }
            k += 1;
        }
        best_idx
    }

    /// Clean a final column: normalize the ends and drop a one-sided
    /// trailing quote; mirrors [`clean_spec`].
    pub fn fix_last_column(field: &str) -> (r: String)
        ensures
            r@ == clean_spec(field@),
    {
        let (c, b) = norm_bounds(field);
        if b > c {
            let lastc = field.get_char(b - 1);
            let firstc = field.get_char(c);
            if lastc == '"' && firstc != '"' {
                let ghost t = crate::text::norm_spec(field@);
                proof {
                    assert(t.drop_last() =~= field@.subrange(c as int, b as int - 1));
                }
                return field.substring_char(c, b - 1).to_owned();
            }
        }
        field.substring_char(c, b).to_owned()
    }
}

/// The drift memory carried across one file's rows.
pub struct RecordAlignmentState {
    /// The once-inferred column to drop from every later over-length row.
    pub drop_index_for_extra_col: Option<usize>,
    /// The previous normalized row, used only to infer that index.
    pub prev_record: Option<Vec<String>>,
}

/// The mathematical shape of the drift memory.
pub open spec fn st_model(st: RecordAlignmentState) -> (Option<int>, Option<Seq<Seq<char>>>) {
    (
        match st.drop_index_for_extra_col {
            Some(d) => Some(d as int),
            None => None,
        },
        match st.prev_record {
            Some(p) => Some(p.deep_view()),
            None => None,
        },
    )
}

/// The drift memory fits the file's expected width.
pub open spec fn st_wf(st: RecordAlignmentState, expected: int) -> bool {
    &&& match st.drop_index_for_extra_col {
        Some(d) => d <= expected,
        None => true,
    }
    &&& match st.prev_record {
        Some(p) => p@.len() == expected,
        None => true,
    }
}

impl RecordAlignmentState {
    /// The empty memory a fresh file starts with.
    pub fn new() -> (r: Self)
        ensures
            st_model(r) == (None::<int>, None::<Seq<Seq<char>>>),
            forall|expected: int| st_wf(r, expected),
    {
        RecordAlignmentState { drop_index_for_extra_col: None, prev_record: None }
    }
}

/// `fields` with trailing all-whitespace entries dropped, but never below
/// the expected width.
pub open spec fn spec_trim_row(fields: Seq<Seq<char>>, expected: int) -> Seq<Seq<char>>
    decreases fields.len(),
{
    if fields.len() > expected && fields.len() > 0 && trim_spec(fields.last()).len() == 0 {
        spec_trim_row(fields.drop_last(), expected)
    } else {
        fields
    }
}

/// The accepted outcome: the final column cleaned, and the row remembered.
pub open spec fn spec_finish(
    fields: Seq<Seq<char>>,
    dropst: Option<int>,
) -> (Result<Seq<Seq<char>>, ProcessError>, (Option<int>, Option<Seq<Seq<char>>>)) {
    let cleaned = if fields.len() > 0 {
        fields.update(fields.len() - 1, clean_spec(fields.last()))
    } else {
        fields
    };
    (Ok(cleaned), (dropst, Some(cleaned)))
}

/// What normalization decides for one row: the normalized row or the exact
/// error, together with the drift memory it leaves behind.
pub open spec fn spec_normalize(
    fields0: Seq<Seq<char>>,
    expected: int,
    st: (Option<int>, Option<Seq<Seq<char>>>),
) -> (Result<Seq<Seq<char>>, ProcessError>, (Option<int>, Option<Seq<Seq<char>>>)) {
    let fields = spec_trim_row(fields0, expected);
    if fields.len() == expected {
        spec_finish(fields, st.0)
    } else if fields.len() == expected + 1 {
        let drop_idx = match st.0 {
            Some(d) => d,
            None => match st.1 {
                Some(prev) => spec_infer(prev, fields),
                None => expected,
            },
        };
        if drop_idx >= fields.len() || drop_idx < 0 {
            (
                Err(
                    ProcessError::DropIndexOutOfBounds {
                        expected: expected as usize,
                        actual: fields.len() as usize,
                        drop_idx: drop_idx as usize,
                    },
                ),
                (Some(drop_idx), st.1),
            )
        } else {
            spec_finish(fields.remove(drop_idx), Some(drop_idx))
        }
    } else if fields.len() < expected {
        spec_finish(pad_to(fields, expected), st.0)
    } else {
        (
            Err(
                ProcessError::ColumnCountMismatch {
                    expected: expected as usize,
                    actual: fields.len() as usize,
                },
            ),
            st,
        )
    }
}

impl DataProcessor {
    /// Reconcile one row against the expected width and clean its final
    /// column; mirrors [`spec_normalize`], drift memory included.
    #[verifier::loop_isolation(false)]
    pub fn normalize_and_process_record(
        record: &Vec<String>,
        expected_len: usize,
        state: &mut RecordAlignmentState,
    ) -> (r: Result<Vec<String>, ProcessError>)
        requires
            st_wf(*old(state), expected_len as int),
        ensures
            ({
                let sr = spec_normalize(
                    record.deep_view(),
                    expected_len as int,
                    st_model(*old(state)),
                );
                &&& st_model(*final(state)) == sr.1
                &&& match r {
                    Ok(v) => sr.0 == Ok::<Seq<Seq<char>>, ProcessError>(v.deep_view()),
                    Err(e) => sr.0 == Err::<Seq<Seq<char>>, ProcessError>(e),
                }
            }),
            st_wf(*final(state), expected_len as int),
            r matches Ok(v) ==> v@.len() == expected_len,
    {
        let ghost rv = record.deep_view();
        let ghost st0 = st_model(*old(state));
        let mut fields = clone_string_vec(record);

        while fields.len() > expected_len && is_blank(fields[fields.len() - 1].as_str())
            invariant
                spec_trim_row(rv, expected_len as int) == spec_trim_row(
                    fields.deep_view(),
                    expected_len as int,
                ),
            decreases fields.len(),
        {
            let ghost before = fields.deep_view();
            proof {
                assert(before.last() == fields@[fields@.len() - 1]@);
            }
            fields.pop();
            proof {
                assert(fields.deep_view() =~= before.drop_last());
            }
        }
        let ghost trimmed = fields.deep_view();
        proof {
            assert(spec_trim_row(trimmed, expected_len as int) == trimmed);
        }

        if fields.len() == expected_len {
            // accepted as is
        } else if fields.len() > expected_len && fields.len() - 1 == expected_len {
            let drop_idx: usize = match state.drop_index_for_extra_col {
                Some(idx) => idx,
                None => {
                    let idx: usize = match &state.prev_record {
                        Some(prev) => Self::infer_drop_index_for_extra_column(prev, &fields),
                        None => expected_len,
                    };
                    state.drop_index_for_extra_col = Some(idx);
                    idx
                },
            };
            if drop_idx >= fields.len() {
                return Err(
                    ProcessError::DropIndexOutOfBounds {
                        expected: expected_len,
                        actual: fields.len(),
                        drop_idx,
                    },
                );
            }
            let ghost before = fields.deep_view();
            fields.remove(drop_idx);
            proof {
                assert(fields.deep_view() =~= before.remove(drop_idx as int));
            }
        } else if fields.len() < expected_len {
            while fields.len() < expected_len
                invariant
                    pad_to(fields.deep_view(), expected_len as int) == pad_to(
                        trimmed,
                        expected_len as int,
                    ),
                    fields@.len() <= expected_len,
                decreases expected_len - fields.len(),
            {
                let ghost before = fields.deep_view();
                fields.push(String::new());
                proof {
                    assert(fields.deep_view() =~= before.push(Seq::<char>::empty()));
                }
            }
        } else {
            return Err(
                ProcessError::ColumnCountMismatch { expected: expected_len, actual: fields.len() },
            );
        }

        if fields.len() > 0 {
            let last_i = fields.len() - 1;
            let ghost before = fields.deep_view();
            let cleaned = DataProcessor::fix_last_column(fields[last_i].as_str());
            let e = vec_index_mut(&mut fields, last_i);
            *e = cleaned;
            proof {
                assert(fields.deep_view() =~= before.update(
                    before.len() - 1,
                    clean_spec(before.last()),
                ));
            }
        }

        state.prev_record = Some(clone_string_vec(&fields));
        Ok(fields)
    }
}

} // verus!
