//! Character-level utilities shared by the whole pipeline: whitespace
//! trimming, byte-order-mark stripping, prefix tests and string equality.
//!
//! The log exports are ASCII apart from the possible byte-order mark, so the
//! library treats exactly the ASCII whitespace characters as blank.

use vstd::prelude::*;

verus! {

/// Whitespace as this library understands it: the ASCII whitespace set.
pub open spec fn is_space_char(c: char) -> bool {
    c == ' ' || c == '\t' || c == '\n' || c == '\r' || c == '\u{000C}'
}

/// Executable mirror of [`is_space_char`].
pub fn is_space(c: char) -> (r: bool)
    ensures
        r == is_space_char(c),
{
    c == ' ' || c == '\t' || c == '\n' || c == '\r' || c == '\u{000C}'
}

/// `s` with its leading whitespace removed.
pub open spec fn trim_start_spec(s: Seq<char>) -> Seq<char>
    decreases s.len(),
{
    if s.len() > 0 && is_space_char(s[0]) {
        trim_start_spec(s.drop_first())
    } else {
        s
    }
}

/// `s` with its trailing whitespace removed.
pub open spec fn trim_end_spec(s: Seq<char>) -> Seq<char>
    decreases s.len(),
{
    if s.len() > 0 && is_space_char(s.last()) {
        trim_end_spec(s.drop_last())
    } else {
        s
    }
}

/// `s` with whitespace removed from both ends.
pub open spec fn trim_spec(s: Seq<char>) -> Seq<char> {
    trim_end_spec(trim_start_spec(s))
}

/// `s` with every leading byte-order mark removed.
pub open spec fn strip_bom_spec(s: Seq<char>) -> Seq<char>
    decreases s.len(),
{
    if s.len() > 0 && s[0] == '\u{FEFF}' {
        strip_bom_spec(s.drop_first())
    } else {
        s
    }
}

/// Trimming a sequence whose ends are already clean changes nothing, and a
/// run of leading whitespace is dropped whole.
pub proof fn lemma_trim_start_subrange(s: Seq<char>, i: int)
    requires
        0 <= i <= s.len(),
        forall|j: int| 0 <= j < i ==> is_space_char(s[j]),
        i < s.len() ==> !is_space_char(s[i]),
    ensures
        trim_start_spec(s) == s.subrange(i, s.len() as int),
    decreases i,
{
    if i == 0 {
        assert(s.subrange(0, s.len() as int) =~= s);
    } else {
        assert(is_space_char(s[0]));
        lemma_trim_start_subrange(s.drop_first(), i - 1);
        assert(s.drop_first().subrange(i - 1, s.drop_first().len() as int) =~= s.subrange(
            i,
            s.len() as int,
        ));
    }
}

/// The mirrored fact for trailing whitespace.
pub proof fn lemma_trim_end_subrange(s: Seq<char>, j: int)
    requires
        0 <= j <= s.len(),
        forall|k: int| j <= k < s.len() ==> is_space_char(s[k]),
        j > 0 ==> !is_space_char(s[j - 1]),
    ensures
        trim_end_spec(s) == s.subrange(0, j),
    decreases s.len() - j,
{
    if j == s.len() {
        assert(s.subrange(0, s.len() as int) =~= s);
    } else {
        assert(is_space_char(s.last()));
        lemma_trim_end_subrange(s.drop_last(), j);
        assert(s.drop_last().subrange(0, j) =~= s.subrange(0, j));
    }
}

/// A run of leading byte-order marks is dropped whole.
pub proof fn lemma_strip_bom_subrange(s: Seq<char>, i: int)
    requires
        0 <= i <= s.len(),
        forall|j: int| 0 <= j < i ==> s[j] == '\u{FEFF}',
        i < s.len() ==> s[i] != '\u{FEFF}',
    ensures
        strip_bom_spec(s) == s.subrange(i, s.len() as int),
    decreases i,
{
    if i == 0 {
        assert(s.subrange(0, s.len() as int) =~= s);
    } else {
        lemma_strip_bom_subrange(s.drop_first(), i - 1);
        assert(s.drop_first().subrange(i - 1, s.drop_first().len() as int) =~= s.subrange(
            i,
            s.len() as int,
        ));
    }
}

/// A line as the structural comparison sees it: whitespace trimmed from both
/// ends, then any leading byte-order marks removed.
pub open spec fn norm_spec(s: Seq<char>) -> Seq<char> {
    strip_bom_spec(trim_spec(s))
}

/// A final CSV column after cleanup: normalized as [`norm_spec`], and a
/// trailing quote removed when the field does not also begin with one.
pub open spec fn clean_spec(s: Seq<char>) -> Seq<char> {
    let t = norm_spec(s);
    if t.len() > 0 && t.last() == '"' && t[0] != '"' {
        t.drop_last()
    } else {
        t
    }
}

/// A string that cleanup leaves alone: clean ends and no one-sided trailing
/// quote.
pub open spec fn is_settled(u: Seq<char>) -> bool {
    u.len() == 0 || (!is_space_char(u[0]) && u[0] != '\u{FEFF}' && !is_space_char(u.last()) && !(
    u.last() == '"' && u[0] != '"'))
}

/// A settled string is a fixed point of cleanup.
pub proof fn lemma_clean_fixed_point(u: Seq<char>)
    requires
        is_settled(u),
    ensures
        clean_spec(u) == u,
{
    assert(trim_start_spec(u) == u);
    assert(trim_end_spec(u) == u);
    assert(strip_bom_spec(u) == u);
}

/// Cleanup is idempotent on every string whose cleaned form is settled.
///
/// The exclusion is exact: a cleaned form that still opens with whitespace or
/// a byte-order mark (both can surface from behind a removed mark), or still
/// ends in whitespace or a one-sided quote (both can surface from behind a
/// removed quote), shrinks again on the second pass.
pub proof fn lemma_clean_idempotent(s: Seq<char>)
    requires
        is_settled(clean_spec(s)),
    ensures
        clean_spec(clean_spec(s)) == clean_spec(s),
{
    lemma_clean_fixed_point(clean_spec(s));
}

/// The bounds of the whitespace-trimmed core of `s`: [`trim_spec`] is
/// exactly the characters from the first returned index to the second.
pub fn trim_bounds(s: &str) -> (r: (usize, usize))
    ensures
        r.0 <= r.1 <= s@.len(),
        trim_spec(s@) == s@.subrange(r.0 as int, r.1 as int),
{
    let n = s.unicode_len();
    let mut a: usize = 0;
    while a < n && is_space(s.get_char(a))
        invariant
            n == s@.len(),
            0 <= a <= n,
            forall|j: int| 0 <= j < a ==> is_space_char(s@[j]),
        decreases n - a,
    {
        a += 1;
    }
    let mut b: usize = n;
    while b > a && is_space(s.get_char(b - 1))
        invariant
            n == s@.len(),
            a <= b <= n,
            forall|k: int| b <= k < n ==> is_space_char(s@[k]),
        decreases b,
    {
        b -= 1;
    }
    proof {
        lemma_trim_start_subrange(s@, a as int);
        let t1 = s@.subrange(a as int, n as int);
        lemma_trim_end_subrange(t1, b - a);
        assert(t1.subrange(0, b - a) =~= s@.subrange(a as int, b as int));
    }
    (a, b)
}

/// `s` with whitespace removed from both ends; mirrors [`trim_spec`].
pub fn trim_str(s: &str) -> (r: String)
    ensures
        r@ == trim_spec(s@),
{
    let (a, b) = trim_bounds(s);
    s.substring_char(a, b).to_owned()
}

/// True when nothing but whitespace is in `s`.
pub fn is_blank(s: &str) -> (r: bool)
    ensures
        r == (trim_spec(s@).len() == 0),
{
    let (a, b) = trim_bounds(s);
    a == b
}

/// The bounds of the normalized core of `s`: [`norm_spec`] is exactly the
/// characters from the first returned index to the second.
pub fn norm_bounds(s: &str) -> (r: (usize, usize))
    ensures
        r.0 <= r.1 <= s@.len(),
        norm_spec(s@) == s@.subrange(r.0 as int, r.1 as int),
{
    let n = s.unicode_len();
    let (a, b) = trim_bounds(s);
    let mut c: usize = a;
    while c < b && s.get_char(c) == '\u{FEFF}'
        invariant
            n == s@.len(),
            a <= c <= b <= n,
            forall|j: int| a <= j < c ==> s@[j] == '\u{FEFF}',
        decreases b - c,
    {
        c += 1;
    }
    proof {
        let t2 = s@.subrange(a as int, b as int);
        lemma_strip_bom_subrange(t2, c - a);
        assert(t2.subrange(c - a, t2.len() as int) =~= s@.subrange(c as int, b as int));
    }
    (c, b)
}

/// Normalize a line for structural comparison; mirrors [`norm_spec`].
pub fn normalize_for_compare(s: &str) -> (r: String)
    ensures
        r@ == norm_spec(s@),
{
    let (c, b) = norm_bounds(s);
    s.substring_char(c, b).to_owned()
}

/// True when `p` is a prefix of `s`.
pub open spec fn has_prefix(s: Seq<char>, p: Seq<char>) -> bool {
    p.len() <= s.len() && s.subrange(0, p.len() as int) == p
}

/// A line that counts as present: something is left after normalization.
pub open spec fn is_nonempty_line(l: Seq<char>) -> bool {
    norm_spec(l).len() != 0
}

/// A line that looks like the subtitle header: its normalized form opens
/// with the two fixed timestamp column names.
pub open spec fn is_header_like(l: Seq<char>) -> bool {
    has_prefix(norm_spec(l), "Date,Time"@)
}

/// Character-exact string equality.
pub fn str_eq(a: &str, b: &str) -> (r: bool)
    ensures
        r == (a@ == b@),
{
    let n = a.unicode_len();
    if n != b.unicode_len() {
        return false;
    }
    let mut i: usize = 0;
    while i < n
        invariant
            n == a@.len(),
            n == b@.len(),
            0 <= i <= n,
            forall|j: int| 0 <= j < i ==> a@[j] == b@[j],
        decreases n - i,
    {
        if a.get_char(i) != b.get_char(i) {
            return false;
        }
        i += 1;
    }
    proof {
        assert(a@ =~= b@);
    }
    true
}

/// True when `s` starts with `p`, character for character.
pub fn str_has_prefix(s: &str, p: &str) -> (r: bool)
    ensures
        r == has_prefix(s@, p@),
{
    let n = p.unicode_len();
    if n > s.unicode_len() {
        return false;
    }
    let mut i: usize = 0;
    while i < n
        invariant
            n == p@.len(),
            n <= s@.len(),
            0 <= i <= n,
            forall|j: int| 0 <= j < i ==> s@[j] == p@[j],
        decreases n - i,
    {
        if s.get_char(i) != p.get_char(i) {
            return false;
        }
        i += 1;
    }
    proof {
        assert(s@.subrange(0, p@.len() as int) =~= p@);
    }
    true
}

} // verus!
