//! Which strings read as numbers: an optional sign, then `inf`, `infinity`
//! or `nan` in any case, or decimal digits with an optional point and an
//! optional exponent.

use crate::common::text::chars_of;
use vstd::prelude::*;

verus! {

/// Whether the character is one of the ten digits of ASCII.
pub open spec fn is_digit(c: char) -> bool {
    '0' <= c <= '9'
}

/// Whether the character is a plus or a minus sign.
pub open spec fn is_sign(c: char) -> bool {
    c == '+' || c == '-'
}

/// The index of the first character at or after `i` that is no digit.
pub open spec fn digits_end(s: Seq<char>, i: int) -> int
    decreases s.len() - i,
{
    if 0 <= i < s.len() && is_digit(s[i]) {
        digits_end(s, i + 1)
    } else {
        i
    }
}

/// Whether `s` from index `from` to its end spells the word whose letters
/// are `lower` in lower case and `upper` in upper case, each letter in
/// either case.
pub open spec fn spells(s: Seq<char>, from: int, lower: Seq<char>, upper: Seq<char>) -> bool {
    &&& s.len() - from == lower.len()
    &&& forall|k: int|
        0 <= k < lower.len() ==> s[from + k] == lower[k] || s[from + k] == #[trigger] upper[k]
}

/// Whether `s` from index `j` on is an exponent: `e` or `E`, an optional
/// sign, and one digit or more up to the end.
pub open spec fn exponent_at(s: Seq<char>, j: int) -> bool {
    &&& 0 <= j < s.len()
    &&& (s[j] == 'e' || s[j] == 'E')
    &&& {
        let d = if j + 1 < s.len() && is_sign(s[j + 1]) {
            j + 2
        } else {
            j + 1
        };
        d < s.len() && digits_end(s, d) == s.len()
    }
}

/// Whether `s` from index `from` on is a decimal number: digits, an
/// optional point with digits, at least one digit in all, and an optional
/// exponent.
pub open spec fn decimal_at(s: Seq<char>, from: int) -> bool {
    let i = digits_end(s, from);
    let has_point = i < s.len() && s[i] == '.';
    let j = if has_point {
        digits_end(s, i + 1)
    } else {
        i
    };
    let digits = (i - from) + if has_point {
        j - i - 1
    } else {
        0
    };
    digits > 0 && (j == s.len() || exponent_at(s, j))
}

/// Whether a string reads as a number.
pub open spec fn reads_as_number(s: Seq<char>) -> bool {
    let from: int = if s.len() > 0 && is_sign(s[0]) {
        1
    } else {
        0
    };
    ||| spells(s, from, seq!['i', 'n', 'f'], seq!['I', 'N', 'F'])
    ||| spells(
        s,
        from,
        seq!['i', 'n', 'f', 'i', 'n', 'i', 't', 'y'],
        seq!['I', 'N', 'F', 'I', 'N', 'I', 'T', 'Y'],
    )
    ||| spells(s, from, seq!['n', 'a', 'n'], seq!['N', 'A', 'N'])
    ||| decimal_at(s, from)
}

fn scan_digits(s: &Vec<char>, i: usize) -> (r: usize)
    requires
        i <= s.len(),
    ensures
        r == digits_end(s@, i as int),
        i <= r <= s.len(),
{
    let mut k: usize = i;
    while k < s.len() && '0' <= s[k] && s[k] <= '9'
        invariant
            i <= k <= s.len(),
            digits_end(s@, i as int) == digits_end(s@, k as int),
        decreases s.len() - k,
    {
        k += 1;
    }
    k
}

fn spells_word(s: &Vec<char>, from: usize, lower: &Vec<char>, upper: &Vec<char>) -> (r: bool)
    requires
        from <= s.len(),
        lower.len() == upper.len(),
    ensures
        r == spells(s@, from as int, lower@, upper@),
{
    if s.len() - from != lower.len() {
        return false;
    }
    let mut k: usize = 0;
    while k < lower.len()
        invariant
            from <= s.len(),
            s.len() - from == lower.len(),
            lower.len() == upper.len(),
            k <= lower.len(),
            forall|m: int|
                0 <= m < k ==> s@[from + m] == lower@[m] || s@[from + m] == #[trigger] upper@[m],
        decreases lower.len() - k,
    {
        if s[from + k] != lower[k] && s[from + k] != upper[k] {
            return false;
        }
        k += 1;
    }
    true
}

fn is_exponent(s: &Vec<char>, j: usize) -> (r: bool)
    requires
        j <= s.len(),
    ensures
        r == exponent_at(s@, j as int),
{
    if j >= s.len() {
        return false;
    }
    if s[j] != 'e' && s[j] != 'E' {
        return false;
    }
    let d: usize = if j + 1 < s.len() && (s[j + 1] == '+' || s[j + 1] == '-') {
        j + 2
    } else {
        j + 1
    };
    if d >= s.len() {
        return false;
    }
    scan_digits(s, d) == s.len()
}

fn is_decimal(s: &Vec<char>, from: usize) -> (r: bool)
    requires
        from <= s.len(),
    ensures
        r == decimal_at(s@, from as int),
{
    let i = scan_digits(s, from);
    let has_point = i < s.len() && s[i] == '.';
    let j = if has_point {
        scan_digits(s, i + 1)
    } else {
        i
    };
    let digits = (i - from) + if has_point {
        j - i - 1
    } else {
        0
    };
    digits > 0 && (j == s.len() || is_exponent(s, j))
}

/// Whether `word` reads as a number.
pub fn is_number(word: &str) -> (r: bool)
    ensures
        r == reads_as_number(word@),
{
    let s = chars_of(word);
    let from: usize = if s.len() > 0 && (s[0] == '+' || s[0] == '-') {
        1
    } else {
        0
    };
    let inf_lower = vec!['i', 'n', 'f'];
    let inf_upper = vec!['I', 'N', 'F'];
    let infinity_lower = vec!['i', 'n', 'f', 'i', 'n', 'i', 't', 'y'];
    let infinity_upper = vec!['I', 'N', 'F', 'I', 'N', 'I', 'T', 'Y'];
    let nan_lower = vec!['n', 'a', 'n'];
    let nan_upper = vec!['N', 'A', 'N'];
    proof {
        assert(inf_lower@ =~= seq!['i', 'n', 'f']);
        assert(inf_upper@ =~= seq!['I', 'N', 'F']);
        assert(infinity_lower@ =~= seq!['i', 'n', 'f', 'i', 'n', 'i', 't', 'y']);
        assert(infinity_upper@ =~= seq!['I', 'N', 'F', 'I', 'N', 'I', 'T', 'Y']);
        assert(nan_lower@ =~= seq!['n', 'a', 'n']);
        assert(nan_upper@ =~= seq!['N', 'A', 'N']);
    }
    spells_word(&s, from, &inf_lower, &inf_upper) || spells_word(
        &s,
        from,
        &infinity_lower,
        &infinity_upper,
    ) || spells_word(&s, from, &nan_lower, &nan_upper) || is_decimal(&s, from)
}

} // verus!
