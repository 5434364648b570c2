use vstd::prelude::*;

verus! {

/// Which characters split a line into runs.
#[derive(Debug, Clone, Copy, PartialEq, Eq, Structural)]
pub enum Separator {
    /// Characters with the Unicode `White_Space` property.
    Whitespace,
    /// Characters that are not numeric.
    NonNumeric,
}

/// The Unicode `White_Space` property.
pub open spec fn white_space(c: char) -> bool {
    let v = c as u32;
    ||| 0x09 <= v <= 0x0d
    ||| v == 0x20
    ||| v == 0x85
    ||| v == 0xa0
    ||| v == 0x1680
    ||| 0x2000 <= v <= 0x200a
    ||| v == 0x2028
    ||| v == 0x2029
    ||| v == 0x202f
    ||| v == 0x205f
    ||| v == 0x3000
}

/// Whether a character falls in one of Unicode's number categories.
pub uninterp spec fn numeric(c: char) -> bool;

/// Whether `c` separates runs under `k`.
pub open spec fn is_sep(k: Separator, c: char) -> bool {
    match k {
        Separator::Whitespace => white_space(c),
        Separator::NonNumeric => !numeric(c),
    }
}

/// Whether `c` has the Unicode `White_Space` property.
pub fn is_white_space(c: char) -> (r: bool)
    ensures
        r == white_space(c),
{
    let v = c as u32;
    (0x09 <= v && v <= 0x0d) || v == 0x20 || v == 0x85 || v == 0xa0 || v == 0x1680 || (0x2000 <= v
        && v <= 0x200a) || v == 0x2028 || v == 0x2029 || v == 0x202f || v == 0x205f || v == 0x3000
}

/// Relies on `char::is_numeric`: whether the character is in a number
/// category; the answer depends on the character alone.
#[verifier::external_body]
fn is_numeric(c: char) -> (r: bool)
    ensures
        r == numeric(c),
{
    c.is_numeric()
}

/// Whether `c` separates runs under `k`.
pub fn is_separator(k: Separator, c: char) -> (r: bool)
    ensures
        r == is_sep(k, c),
{
    match k {
        Separator::Whitespace => is_white_space(c),
        Separator::NonNumeric => !is_numeric(c),
    }
}

/// How many characters at the start of `s` are not separators.
pub open spec fn run_len(s: Seq<char>, k: Separator) -> nat
    decreases s.len(),
{
    if s.len() == 0 || is_sep(k, s[0]) {
        0
    } else {
        1 + run_len(s.drop_first(), k)
    }
}

/// A run never reaches past the end, and starts with any non-separator.
pub proof fn lemma_run_len(s: Seq<char>, k: Separator)
    ensures
        run_len(s, k) <= s.len(),
        s.len() > 0 && !is_sep(k, s[0]) ==> run_len(s, k) >= 1,
    decreases s.len(),
{
    if s.len() > 0 && !is_sep(k, s[0]) {
        lemma_run_len(s.drop_first(), k);
    }
}

proof fn lemma_run_len_exact(s: Seq<char>, k: Separator, n: int)
    requires
        0 <= n <= s.len(),
        forall|m: int| 0 <= m < n ==> !is_sep(k, #[trigger] s[m]),
        n == s.len() || is_sep(k, s[n]),
    ensures
        run_len(s, k) == n,
    decreases n,
{
    if n > 0 {
        assert(!is_sep(k, s[0]));
        let t = s.drop_first();
        assert forall|m: int| 0 <= m < n - 1 implies !is_sep(k, #[trigger] t[m]) by {
            assert(t[m] == s[m + 1]);
        }
        lemma_run_len_exact(t, k, n - 1);
    }
}

/// The maximal runs of non-separator characters of `s`, left to right.
pub open spec fn runs(s: Seq<char>, k: Separator) -> Seq<Seq<char>>
    decreases s.len(),
{
    if s.len() == 0 {
        Seq::empty()
    } else if is_sep(k, s[0]) {
        runs(s.drop_first(), k)
    } else {
        proof {
            lemma_run_len(s, k);
        }
        seq![s.take(run_len(s, k) as int)] + runs(s.skip(run_len(s, k) as int), k)
    }
}

/// Splits `s` into its maximal runs of non-separator characters.
pub fn split_runs<'a>(s: &'a str, k: Separator) -> (r: Vec<&'a str>)
    ensures
        r@.map_values(|w: &'a str| w@) == runs(s@, k),
{
    let n = s.unicode_len();
    let mut out: Vec<&'a str> = Vec::new();
    let mut i: usize = 0;
    assert(s@.skip(0) =~= s@);
    assert(out@.map_values(|w: &'a str| w@) =~= Seq::<Seq<char>>::empty());
    while i < n
        invariant
            i <= n,
            n == s@.len(),
            out@.map_values(|w: &'a str| w@) + runs(s@.skip(i as int), k) == runs(s@, k),
        decreases n - i,
    {
        let ghost rest = s@.skip(i as int);
        let c = s.get_char(i);
        if is_separator(k, c) {
            assert(rest.drop_first() =~= s@.skip(i + 1));
            i = i + 1;
        } else {
            let mut j: usize = i + 1;
            while j < n
                invariant
                    i < j <= n,
                    n == s@.len(),
                    forall|m: int| i <= m < j ==> !is_sep(k, #[trigger] s@[m]),
                ensures
                    i < j <= n,
                    forall|m: int| i <= m < j ==> !is_sep(k, #[trigger] s@[m]),
                    j == n || is_sep(k, s@[j as int]),
                decreases n - j,
            {
                if is_separator(k, s.get_char(j)) {
                    break;
                }
                j = j + 1;
            }
            let w = s.substring_char(i, j);
            proof {
                assert forall|m: int| 0 <= m < j - i implies !is_sep(k, #[trigger] rest[m]) by {
                    assert(rest[m] == s@[i + m]);
                }
                if j < n {
                    assert(rest[j - i] == s@[j as int]);
                }
                lemma_run_len_exact(rest, k, j - i);
                assert(rest.take(j - i) =~= w@);
                assert(rest.skip(j - i) =~= s@.skip(j as int));
            }
            let ghost before = out@;
            out.push(w);
            assert(out@.map_values(|w: &'a str| w@) =~= before.map_values(|w: &'a str| w@).push(w@));
            assert(out@.map_values(|w: &'a str| w@) + runs(s@.skip(j as int), k) =~= before.map_values(
                |w: &'a str| w@,
            ) + runs(rest, k));
            i = j;
        }
    }
    assert(s@.skip(n as int) =~= Seq::<char>::empty());
    assert(out@.map_values(|w: &'a str| w@) =~= runs(s@, k));
    out
}

/// Whether `c` is one of the ASCII digits `0` to `9`.
pub open spec fn ascii_digit(c: char) -> bool {
    48 <= c as u32 <= 57
}

/// The value of a string of decimal digits.
pub open spec fn digits_value(s: Seq<char>) -> int
    decreases s.len(),
{
    if s.len() == 0 {
        0
    } else {
        digits_value(s.drop_last()) * 10 + (s.last() as u32 - 48)
    }
}

/// The positive whole number that `s` spells in decimal digits, if it spells
/// one that fits in a `usize`.
pub open spec fn positive_of(s: Seq<char>) -> Option<int> {
    if s.len() > 0 && (forall|m: int| 0 <= m < s.len() ==> ascii_digit(#[trigger] s[m])) && 1
        <= digits_value(s) <= usize::MAX {
        Some(digits_value(s))
    } else {
        None
    }
}

proof fn lemma_digits_prefix(s: Seq<char>, i: int)
    requires
        0 <= i <= s.len(),
        forall|m: int| 0 <= m < s.len() ==> ascii_digit(#[trigger] s[m]),
    ensures
        0 <= digits_value(s.take(i)) <= digits_value(s),
    decreases s.len(),
{
    if i == s.len() {
        assert(s.take(i) =~= s);
        if s.len() > 0 {
            lemma_digits_prefix(s.drop_last(), i - 1);
            assert(s.drop_last().take(i - 1) =~= s.drop_last());
            assert(ascii_digit(s[s.len() - 1]));
        }
    } else {
        lemma_digits_prefix(s.drop_last(), i);
        assert(s.drop_last().take(i) =~= s.take(i));
        assert(ascii_digit(s[s.len() - 1]));
        lemma_digits_prefix(s.drop_last(), s.len() - 1);
        assert(s.drop_last().take(s.len() - 1) =~= s.drop_last());
    }
}

/// Reads `t` as a positive whole number in decimal digits.
pub fn parse_positive(t: &str) -> (r: Option<usize>)
    ensures
        match positive_of(t@) {
            Some(v) => r == Some(v as usize),
            None => r is None,
        },
{
    let n = t.unicode_len();
    if n == 0 {
        return None;
    }
    let mut i: usize = 0;
    while i < n
        invariant
            i <= n,
            n == t@.len(),
            forall|m: int| 0 <= m < i ==> ascii_digit(#[trigger] t@[m]),
        decreases n - i,
    {
        let c = t.get_char(i);
        if !(48 <= c as u32 && c as u32 <= 57) {
            return None;
        }
        i = i + 1;
    }
    let mut acc: usize = 0;
    let mut i: usize = 0;
    assert(t@.take(0) =~= Seq::<char>::empty());
    while i < n
        invariant
            i <= n,
            n == t@.len(),
            forall|m: int| 0 <= m < n ==> ascii_digit(#[trigger] t@[m]),
            acc == digits_value(t@.take(i as int)),
        decreases n - i,
    {
        let c = t.get_char(i);
        let d = (c as u32 - 48) as usize;
        assert(t@.take(i + 1).drop_last() =~= t@.take(i as int));
        assert(digits_value(t@.take(i + 1)) == acc * 10 + d);
        if acc > (usize::MAX - d) / 10 {
            proof {
                assert(acc * 10 + d > usize::MAX) by (nonlinear_arith)
                    requires
                        acc > (usize::MAX - d) / 10,
                        d <= 9,
                ;
                lemma_digits_prefix(t@, i + 1);
            }
            return None;
        }
        assert(acc * 10 + d <= usize::MAX) by (nonlinear_arith)
            requires
                acc <= (usize::MAX - d) / 10,
                d <= 9,
        ;
        acc = acc * 10 + d;
        i = i + 1;
    }
    assert(t@.take(n as int) =~= t@);
    if acc == 0 {
        return None;
    }
    Some(acc)
}

} // verus!
