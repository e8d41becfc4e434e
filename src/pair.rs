use vstd::prelude::*;

verus! {

pub open spec fn is_digit(c: char) -> bool {
    '0' <= c && c <= '9'
}

pub open spec fn digit_value(c: char) -> nat {
    ((c as u32) - ('0' as u32)) as nat
}

/// The number that a run of decimal digits writes, most significant first.
pub open spec fn digits_value(s: Seq<char>) -> nat
    decreases s.len(),
{
    if s.len() == 0 {
        0
    } else {
        digits_value(s.drop_last()) * 10 + digit_value(s.last())
    }
}

pub open spec fn all_digits(s: Seq<char>) -> bool {
    forall|i: int| 0 <= i < s.len() ==> is_digit(#[trigger] s[i])
}

/// The text after an optional leading `+`.
pub open spec fn unsigned_part(s: Seq<char>) -> Seq<char> {
    if s.len() > 0 && s[0] == '+' {
        s.drop_first()
    } else {
        s
    }
}

/// The `usize` that a text writes in decimal: an optional `+`, then one or
/// more digits, for a value that fits; nothing for any other text.
pub open spec fn usize_value(s: Seq<char>) -> Option<usize> {
    let d = unsigned_part(s);
    if d.len() > 0 && all_digits(d) && digits_value(d) <= usize::MAX {
        Some(digits_value(d) as usize)
    } else {
        None
    }
}

/// `k` is the position of the first `separator` in `s`.
pub open spec fn is_first_separator(s: Seq<char>, separator: char, k: int) -> bool {
    &&& 0 <= k < s.len()
    &&& s[k] == separator
    &&& forall|j: int| 0 <= j < k ==> s[j] != separator
}

/// The two numbers on either side of the first `separator` in `s`, when
/// there is one and both sides are numbers.
pub open spec fn pair_value(s: Seq<char>, separator: char) -> Option<(usize, usize)> {
    if exists|k: int| is_first_separator(s, separator, k) {
        let k = choose|k: int| is_first_separator(s, separator, k);
        match (usize_value(s.subrange(0, k)), usize_value(s.subrange(k + 1, s.len() as int))) {
            (Some(a), Some(b)) => Some((a, b)),
            _ => None,
        }
    } else {
        None
    }
}

proof fn lemma_prefix_value_le(s: Seq<char>, k: int)
    requires
        0 <= k <= s.len(),
    ensures
        digits_value(s.subrange(0, k)) <= digits_value(s),
    decreases s.len(),
{
    if k < s.len() {
        assert(s.drop_last().subrange(0, k) =~= s.subrange(0, k));
        lemma_prefix_value_le(s.drop_last(), k);
    } else {
        assert(s.subrange(0, k) =~= s);
    }
}

/// Splits `s` at the first `separator`: the text before it and the text
/// after it. Nothing when `s` holds no separator.
pub fn split_pair(s: &str, separator: char) -> (r: Option<(&str, &str)>)
    ensures
        r is None <==> !s@.contains(separator),
        r matches Some((left, right)) ==> s@ == left@ + seq![separator] + right@
            && !left@.contains(separator),
{
    let n = s.unicode_len();
    let mut i: usize = 0;
    while i < n
        invariant
            n == s@.len(),
            i <= n,
            forall|j: int| 0 <= j < i ==> s@[j] != separator,
        decreases n - i,
    {
        if s.get_char(i) == separator {
            let left = s.substring_char(0, i);
            let right = s.substring_char(i + 1, n);
            assert(s@ =~= left@ + seq![separator] + right@);
            assert(!left@.contains(separator));
            return Some((left, right));
        }
        i = i + 1;
    }
    None
}

/// Reads a `usize` written in decimal, with an optional leading `+`.
/// Nothing for an empty text, a character that is not a digit, or a value
/// past `usize::MAX`.
pub fn parse_usize(s: &str) -> (r: Option<usize>)
    ensures
        r == usize_value(s@),
{
    let n = s.unicode_len();
    let start: usize = if n > 0 && s.get_char(0) == '+' {
        1
    } else {
        0
    };
    let ghost d = unsigned_part(s@);
    assert(d =~= s@.subrange(start as int, n as int));
    if start == n {
        return None;
    }
    let mut value: usize = 0;
    let mut i: usize = start;
    while i < n
        invariant
            n == s@.len(),
            start <= i <= n,
            d == s@.subrange(start as int, n as int),
            d == unsigned_part(s@),
            all_digits(d.subrange(0, i - start)),
            value == digits_value(d.subrange(0, i - start)),
        decreases n - i,
    {
        let c = s.get_char(i);
        let ghost k = i - start;
        assert(d[k] == c);
        assert(d.subrange(0, k + 1).drop_last() =~= d.subrange(0, k));
        if c < '0' || c > '9' {
            assert(!all_digits(d));
            return None;
        }
        let digit = (c as u32 - '0' as u32) as usize;
        assert(digits_value(d.subrange(0, k + 1)) == value * 10 + digit);
        if value > usize::MAX / 10 || value * 10 > usize::MAX - digit {
            proof {
                lemma_prefix_value_le(d, k + 1);
                assert(digits_value(d) > usize::MAX);
            }
            return None;
        }
        value = value * 10 + digit;
        assert(all_digits(d.subrange(0, k + 1)));
        i = i + 1;
    }
    assert(d.subrange(0, n - start) =~= d);
    Some(value)
}

/// Reads two `usize` values on either side of the first `separator`, as in
/// `"1280x960"`: nothing when there is no separator or either side is not a
/// number.
pub fn parse_pair(s: &str, separator: char) -> (r: Option<(usize, usize)>)
    ensures
        r == pair_value(s@, separator),
{
    match split_pair(s, separator) {
        None => {
            assert forall|k: int| !is_first_separator(s@, separator, k) by {
                if 0 <= k < s@.len() && s@[k] == separator {
                    assert(s@.contains(separator));
                }
            }
            None
        },
        Some((left, right)) => {
            let ghost k = left@.len() as int;
            assert(is_first_separator(s@, separator, k)) by {
                assert forall|j: int| 0 <= j < k implies s@[j] != separator by {
                    assert(s@[j] == left@[j]);
                }
            }
            let ghost chosen = choose|k: int| is_first_separator(s@, separator, k);
            assert(chosen == k) by {
                if chosen < k {
                    assert(s@[chosen] == separator);
                } else if chosen > k {
                    assert(s@[k] == separator);
                }
            }
            assert(s@.subrange(0, k) =~= left@);
            assert(s@.subrange(k + 1, s@.len() as int) =~= right@);
            match (parse_usize(left), parse_usize(right)) {
                (Some(a), Some(b)) => Some((a, b)),
                _ => None,
            }
        },
    }
}

} // verus!
