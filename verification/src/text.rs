//! Character and string primitives: case folding, first-occurrence search,
//! field trimming and unsigned-integer parsing, each with an exact
//! specification.

use vstd::prelude::*;

verus! {

/// True for the characters that field trimming removes: ASCII whitespace.
pub open spec fn is_space(c: char) -> bool {
    c == ' ' || c == '\t' || c == '\n' || c == '\u{c}' || c == '\r'
}

/// Lowers one character: an ASCII uppercase letter maps to its lowercase
/// counterpart, every other character is unchanged.
pub open spec fn lower_char(c: char) -> char {
    if 'A' <= c && c <= 'Z' {
        (((c as u8) + 32) as u8) as char
    } else {
        c
    }
}

/// Lowers every character of a string: ASCII case folding only, `A`-`Z` to
/// `a`-`z`; every other character, non-ASCII letters included, stays as it
/// is.
pub open spec fn lower(s: Seq<char>) -> Seq<char> {
    s.map_values(|c: char| lower_char(c))
}

/// Lowering a string twice is the same as lowering it once.
pub proof fn lemma_lower_idempotent(s: Seq<char>)
    ensures
        lower(lower(s)) == lower(s),
{
    assert forall|i: int| 0 <= i < s.len() implies lower(lower(s))[i] == lower(s)[i] by {
        assert(lower(s)[i] == lower_char(s[i]));
    }
    assert(lower(lower(s)) =~= lower(s));
}

/// The index of the first occurrence of `c` in `s`, or `s.len()` when `c`
/// does not occur.
pub open spec fn first_index(s: Seq<char>, c: char) -> int
    decreases s.len(),
{
    if s.len() == 0 {
        0
    } else if s[0] == c {
        0
    } else {
        1 + first_index(s.subrange(1, s.len() as int), c)
    }
}

/// What `first_index` returns: a position no later than the end, with no
/// occurrence of `c` before it, and holding `c` when it is not the end.
pub proof fn lemma_first_index(s: Seq<char>, c: char)
    ensures
        0 <= first_index(s, c) <= s.len(),
        forall|j: int| 0 <= j < first_index(s, c) ==> s[j] != c,
        first_index(s, c) < s.len() ==> s[first_index(s, c)] == c,
    decreases s.len(),
{
    if s.len() > 0 && s[0] != c {
        let rest = s.subrange(1, s.len() as int);
        lemma_first_index(rest, c);
        assert forall|j: int| 0 <= j < first_index(s, c) implies s[j] != c by {
            if j > 0 {
                assert(rest[j - 1] != c);
            }
        }
    }
}

/// The first position at or after `from` where `c` stands in `s`, or the end
/// of `s`, stated through `first_index` of the remaining suffix.
pub fn find_from(s: &str, from: usize, c: char) -> (r: usize)
    requires
        from <= s@.len(),
    ensures
        from <= r <= s@.len(),
        r - from == first_index(s@.subrange(from as int, s@.len() as int), c),
{
    let len = s.unicode_len();
    let ghost suffix = s@.subrange(from as int, s@.len() as int);
    proof {
        lemma_first_index(suffix, c);
    }
    let ghost fi = first_index(suffix, c);
    let mut i = from;
    while i < len
        invariant
            from <= i <= len,
            len == s@.len(),
            suffix == s@.subrange(from as int, s@.len() as int),
            0 <= fi <= suffix.len(),
            fi == first_index(suffix, c),
            forall|j: int| 0 <= j < fi ==> suffix[j] != c,
            fi < suffix.len() ==> suffix[fi] == c,
            forall|j: int| from <= j < i ==> s@[j] != c,
        decreases len - i,
    {
        let ch = s.get_char(i);
        if ch == c {
            proof {
                assert(suffix[i - from] == c);
                if fi > i - from {
                    assert(suffix[i - from] != c);
                }
                if fi < i - from {
                    assert(s@[from + fi] == suffix[fi]);
                }
            }
            return i;
        }
        i += 1;
    }
    proof {
        if fi < suffix.len() {
            assert(s@[from + fi] == suffix[fi]);
        }
    }
    i
}

/// Whether two strings hold the same characters.
pub fn str_eq(a: &str, b: &str) -> (r: bool)
    ensures
        r == (a@ == b@),
{
    let alen = a.unicode_len();
    if alen != b.unicode_len() {
        return false;
    }
    let mut i: usize = 0;
    while i < alen
        invariant
            0 <= i <= alen,
            alen == a@.len(),
            alen == b@.len(),
            forall|j: int| 0 <= j < i ==> a@[j] == b@[j],
        decreases alen - i,
    {
        if a.get_char(i) != b.get_char(i) {
            return false;
        }
        i += 1;
    }
    proof {
        assert(a@ =~= b@);
    }
    true
}

/// Whether `a`, lowered, holds the same characters as `b` as it stands.
pub fn lower_eq(a: &str, b: &str) -> (r: bool)
    ensures
        r == (lower(a@) == b@),
{
    let alen = a.unicode_len();
    if alen != b.unicode_len() {
        return false;
    }
    let mut i: usize = 0;
    while i < alen
        invariant
            0 <= i <= alen,
            alen == a@.len(),
            alen == b@.len(),
            forall|j: int| 0 <= j < i ==> lower(a@)[j] == b@[j],
        decreases alen - i,
    {
        let ca = lower_char_x(a.get_char(i));
        if ca != b.get_char(i) {
            proof {
                assert(lower(a@)[i as int] == lower_char(a@[i as int]));
            }
            return false;
        }
        i += 1;
    }
    proof {
        assert(lower(a@) =~= b@);
    }
    true
}

fn lower_char_x(c: char) -> (r: char)
    ensures
        r == lower_char(c),
{
    if 'A' <= c && c <= 'Z' {
        ((c as u8) + 32) as char
    } else {
        c
    }
}

/// The number of leading whitespace characters of `s`.
pub open spec fn trim_start_idx(s: Seq<char>) -> int
    decreases s.len(),
{
    if s.len() == 0 {
        0
    } else if !is_space(s[0]) {
        0
    } else {
        1 + trim_start_idx(s.subrange(1, s.len() as int))
    }
}

/// The length of `s` with its trailing whitespace characters removed.
pub open spec fn trim_end_idx(s: Seq<char>) -> int
    decreases s.len(),
{
    if s.len() == 0 {
        0
    } else if !is_space(s[s.len() - 1]) {
        s.len() as int
    } else {
        trim_end_idx(s.subrange(0, s.len() - 1))
    }
}

/// `s` with leading and trailing whitespace removed.
pub open spec fn trim(s: Seq<char>) -> Seq<char> {
    let a = trim_start_idx(s);
    let b = trim_end_idx(s);
    if a < b {
        s.subrange(a, b)
    } else {
        Seq::empty()
    }
}

pub proof fn lemma_trim_start_idx(s: Seq<char>)
    ensures
        0 <= trim_start_idx(s) <= s.len(),
        forall|j: int| 0 <= j < trim_start_idx(s) ==> is_space(s[j]),
        trim_start_idx(s) < s.len() ==> !is_space(s[trim_start_idx(s)]),
    decreases s.len(),
{
    if s.len() > 0 && is_space(s[0]) {
        let rest = s.subrange(1, s.len() as int);
        lemma_trim_start_idx(rest);
        assert forall|j: int| 0 <= j < trim_start_idx(s) implies is_space(s[j]) by {
            if j > 0 {
                assert(is_space(rest[j - 1]));
            }
        }
    }
}

pub proof fn lemma_trim_end_idx(s: Seq<char>)
    ensures
        0 <= trim_end_idx(s) <= s.len(),
        forall|j: int| trim_end_idx(s) <= j < s.len() ==> is_space(s[j]),
        trim_end_idx(s) > 0 ==> !is_space(s[trim_end_idx(s) - 1]),
    decreases s.len(),
{
    if s.len() > 0 && is_space(s[s.len() - 1]) {
        let rest = s.subrange(0, s.len() - 1);
        lemma_trim_end_idx(rest);
        assert forall|j: int| trim_end_idx(s) <= j < s.len() implies is_space(s[j]) by {
            if j < s.len() - 1 {
                assert(is_space(rest[j]));
            }
        }
    }
}

fn is_space_x(c: char) -> (r: bool)
    ensures
        r == is_space(c),
{
    c == ' ' || c == '\t' || c == '\n' || c == '\u{c}' || c == '\r'
}

/// `s` with leading and trailing whitespace removed.
pub fn trim_str(s: &str) -> (r: &str)
    ensures
        r@ == trim(s@),
{
    let len = s.unicode_len();
    proof {
        lemma_trim_start_idx(s@);
        lemma_trim_end_idx(s@);
    }
    let ghost sa = trim_start_idx(s@);
    let ghost sb = trim_end_idx(s@);
    let mut a: usize = 0;
    while a < len && is_space_x(s.get_char(a))
        invariant
            0 <= a <= len,
            len == s@.len(),
            sa == trim_start_idx(s@),
            a <= sa,
            forall|j: int| 0 <= j < a ==> is_space(s@[j]),
        decreases len - a,
    {
        proof {
            lemma_trim_start_idx(s@);
            if a == sa {
                assert(!is_space(s@[sa]));
            }
        }
        a += 1;
    }
    proof {
        lemma_trim_start_idx(s@);
        assert(a == sa) by {
            if a < sa {
                assert(is_space(s@[a as int]));
            }
        }
    }
    let mut b: usize = len;
    while b > a && is_space_x(s.get_char(b - 1))
        invariant
            a <= b <= len,
            len == s@.len(),
            a == sa,
            sb == trim_end_idx(s@),
            sb <= b,
            forall|j: int| b <= j < len ==> is_space(s@[j]),
        decreases b,
    {
        proof {
            lemma_trim_end_idx(s@);
            if b == sb {
                assert(!is_space(s@[sb - 1]));
            }
        }
        b -= 1;
    }
    proof {
        lemma_trim_start_idx(s@);
        lemma_trim_end_idx(s@);
        if b > a {
            // The loop stopped on a non-space character, so `b` is exactly
            // the trimmed end.
            assert(!is_space(s@[b - 1]));
            assert(b >= sb) by {
                if b < sb {
                    assert(is_space(s@[b - 1]));
                }
            }
            assert(b <= sb);
            assert(trim(s@) == s@.subrange(sa, sb));
        } else {
            // Everything from `a` on is whitespace, so the trimmed field is
            // empty.
            assert(sb <= a);
            assert(sa >= sb ==> trim(s@) == Seq::<char>::empty());
            if sa < sb {
                assert(is_space(s@[sb - 1]));
            }
            assert(trim(s@) =~= s@.subrange(a as int, b as int));
        }
    }
    s.substring_char(a, b)
}

/// True for the decimal digit characters.
pub open spec fn is_digit(c: char) -> bool {
    '0' <= c && c <= '9'
}

/// The numeric value of a decimal digit character.
pub open spec fn digit_val(c: char) -> int {
    (c as u8) - 48
}

/// Whether every character of `s` is a decimal digit.
pub open spec fn all_digits(s: Seq<char>) -> bool {
    forall|i: int| 0 <= i < s.len() ==> is_digit(#[trigger] s[i])
}

/// The value of a string of decimal digits, most significant first.
pub open spec fn digits_val(s: Seq<char>) -> int
    decreases s.len(),
{
    if s.len() == 0 {
        0
    } else {
        digits_val(s.drop_last()) * 10 + digit_val(s.last())
    }
}

/// The unsigned 64-bit number that `s` denotes: an optional leading `+`,
/// then at least one decimal digit, valuing at most `u64::MAX`; anything
/// else does not parse.
pub open spec fn parse_u64(s: Seq<char>) -> Option<u64> {
    let body = if s.len() >= 1 && s[0] == '+' {
        s.subrange(1, s.len() as int)
    } else {
        s
    };
    if body.len() == 0 {
        None
    } else if !all_digits(body) {
        None
    } else if digits_val(body) > u64::MAX {
        None
    } else {
        Some(digits_val(body) as u64)
    }
}

pub proof fn lemma_digits_val_nonneg(s: Seq<char>)
    requires
        all_digits(s),
    ensures
        digits_val(s) >= 0,
    decreases s.len(),
{
    if s.len() > 0 {
        assert forall|i: int| 0 <= i < s.drop_last().len() implies is_digit(
            #[trigger] s.drop_last()[i],
        ) by {
            assert(is_digit(s[i]));
        }
        lemma_digits_val_nonneg(s.drop_last());
    }
}

/// Reading further digits never shrinks the value.
pub proof fn lemma_digits_val_mono(s: Seq<char>, k: int)
    requires
        all_digits(s),
        0 <= k <= s.len(),
    ensures
        digits_val(s) >= digits_val(s.subrange(0, k)),
    decreases s.len() - k,
{
    if k == s.len() {
        assert(s.subrange(0, k) =~= s);
    } else {
        let p = s.subrange(0, k);
        let q = s.subrange(0, k + 1);
        assert(q.drop_last() =~= p);
        assert(all_digits(p)) by {
            assert forall|i: int| 0 <= i < p.len() implies is_digit(#[trigger] p[i]) by {
                assert(is_digit(s[i]));
            }
        }
        lemma_digits_val_nonneg(p);
        assert(digits_val(q) == digits_val(p) * 10 + digit_val(s[k]));
        lemma_digits_val_mono(s, k + 1);
    }
}

/// Parses `s` as an unsigned 64-bit number, returning nothing on any
/// malformed or out-of-range input.
pub fn parse_u64_str(s: &str) -> (r: Option<u64>)
    ensures
        r == parse_u64(s@),
{
    let len = s.unicode_len();
    let start: usize = if len >= 1 && s.get_char(0) == '+' {
        1
    } else {
        0
    };
    let ghost body = if s@.len() >= 1 && s@[0] == '+' {
        s@.subrange(1, s@.len() as int)
    } else {
        s@
    };
    if start == len {
        return None;
    }
    let mut acc: u64 = 0;
    let mut i = start;
    while i < len
        invariant
            start <= i <= len,
            start < len,
            start == 0 || start == 1,
            len == s@.len(),
            start == 1 ==> (s@.len() >= 1 && s@[0] == '+' && body == s@.subrange(
                1,
                s@.len() as int,
            )),
            start == 0 ==> !(s@.len() >= 1 && s@[0] == '+') && body == s@,
            body.len() == len - start,
            forall|j: int| 0 <= j < body.len() ==> body[j] == s@[start + j],
            all_digits(body.subrange(0, i - start)),
            acc == digits_val(body.subrange(0, i - start)),
        decreases len - i,
    {
        let c = s.get_char(i);
        let ghost done = body.subrange(0, i - start);
        let ghost next = body.subrange(0, i + 1 - start);
        proof {
            assert(next.drop_last() =~= done);
            assert(next.last() == body[i - start]);
        }
        if !('0' <= c && c <= '9') {
            proof {
                assert(!is_digit(body[i - start]));
            }
            return None;
        }
        let d: u64 = ((c as u8) - 48) as u64;
        proof {
            assert(all_digits(next));
        }
        if acc > (u64::MAX - d) / 10 {
            proof {
                assert(digits_val(next) == acc * 10 + d);
                assert(acc * 10 + d > u64::MAX) by (nonlinear_arith)
                    requires
                        acc > (u64::MAX - d) / 10,
                        d <= 9,
                {}
                if all_digits(body) {
                    lemma_digits_val_mono(body, i + 1 - start);
                }
            }
            return None;
        }
        proof {
            assert(acc * 10 + d <= u64::MAX) by (nonlinear_arith)
                requires
                    acc <= (u64::MAX - d) / 10,
                    d <= 9,
            {}
        }
        acc = acc * 10 + d;
        i += 1;
    }
    proof {
        assert(body.subrange(0, len - start) =~= body);
        lemma_digits_val_nonneg(body);
    }
    Some(acc)
}

} // verus!
