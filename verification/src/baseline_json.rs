//! Reading a saved performance baseline: the text of a field of the flat
//! JSON object it is stored as, and unsigned numbers as Rust's `parse`
//! reads them, with the same error messages.

use vstd::prelude::*;

use crate::parse::{char_is_space, chars_of, is_digit, is_space, lemma_trim_start, trim, trim_bounds, trim_start};
use crate::text::{push_char, push_str};

verus! {

broadcast use vstd::seq_lib::group_seq_properties;

/// `needle` occurs in `s` at position `i`.
pub open spec fn occurs_at(s: Seq<char>, needle: Seq<char>, i: int) -> bool {
    0 <= i && i + needle.len() <= s.len() && s.subrange(i, i + needle.len()) == needle
}

/// The first position from `i` on at which `needle` occurs in `s`, or -1.
pub open spec fn first_from(s: Seq<char>, needle: Seq<char>, i: int) -> int
    decreases s.len() + 1 - i,
{
    if i < 0 || i > s.len() || i + needle.len() > s.len() {
        -1
    } else if occurs_at(s, needle, i) {
        i
    } else {
        first_from(s, needle, i + 1)
    }
}

/// A character that ends a field's value: `,`, `}` or a line break.
pub open spec fn is_stop(c: char) -> bool {
    c == ',' || c == '}' || c == '\n'
}

/// The position of the first character of `t` that ends a value, or the
/// length of `t`.
pub open spec fn first_stop(t: Seq<char>) -> int
    decreases t.len(),
{
    if t.len() == 0 {
        0
    } else if is_stop(t[0]) {
        0
    } else {
        1 + first_stop(t.drop_first())
    }
}

/// What `"key":` looks like in the text.
pub open spec fn key_pattern(key: Seq<char>) -> Seq<char> {
    seq!['"'] + key + seq!['"', ':']
}

/// The text of field `key`: after the first `"key":`, leading white space
/// skipped, up to the first `,`, `}` or line break, trimmed; none when
/// `"key":` does not occur.
pub open spec fn field_text_of(s: Seq<char>, key: Seq<char>) -> Option<Seq<char>> {
    let p = key_pattern(key);
    let i = first_from(s, p, 0);
    if i < 0 {
        None
    } else {
        let t = trim_start(s.subrange(i + p.len(), s.len() as int));
        Some(trim(t.subrange(0, first_stop(t))))
    }
}

/// `s` without its leading double quotes.
pub open spec fn unquote_start(s: Seq<char>) -> Seq<char>
    decreases s.len(),
{
    if s.len() > 0 && s[0] == '"' {
        unquote_start(s.drop_first())
    } else {
        s
    }
}

/// `s` without its trailing double quotes.
pub open spec fn unquote_end(s: Seq<char>) -> Seq<char>
    decreases s.len(),
{
    if s.len() > 0 && s.last() == '"' {
        unquote_end(s.drop_last())
    } else {
        s
    }
}

/// `s` without leading and trailing double quotes.
pub open spec fn unquote(s: Seq<char>) -> Seq<char> {
    unquote_end(unquote_start(s))
}

/// Why a text is not an unsigned number.
#[derive(Debug, Clone, Copy, PartialEq, Eq, Structural)]
pub enum IntParseError {
    /// The text is empty.
    Empty,
    /// A character is not a digit (or a sign stands alone).
    InvalidDigit,
    /// The number is too large.
    PosOverflow,
}

/// The value of digit character `c`.
pub open spec fn digit_value(c: char) -> nat {
    ((c as u32) - 48) as nat
}

/// Reading the digits of `d` from the left, with a limit of `max`: the
/// first character that is no digit, or the first digit that takes the
/// value above `max`, ends the reading with an error.
pub open spec fn scan_digits(d: Seq<char>, max: nat) -> Result<nat, IntParseError>
    decreases d.len(),
{
    if d.len() == 0 {
        Ok(0)
    } else {
        match scan_digits(d.drop_last(), max) {
            Err(e) => Err(e),
            Ok(v) => if !is_digit(d.last()) {
                Err(IntParseError::InvalidDigit)
            } else if v * 10 + digit_value(d.last()) > max {
                Err(IntParseError::PosOverflow)
            } else {
                Ok(v * 10 + digit_value(d.last()))
            },
        }
    }
}

/// `s` read as an unsigned number no greater than `max`, as Rust's `parse`
/// reads it: empty is an error, a lone sign is an invalid digit, one
/// leading `+` is skipped, and then the digits are read from the left.
pub open spec fn uint_parse(s: Seq<char>, max: nat) -> Result<nat, IntParseError> {
    if s.len() == 0 {
        Err(IntParseError::Empty)
    } else if s.len() == 1 && (s[0] == '+' || s[0] == '-') {
        Err(IntParseError::InvalidDigit)
    } else if s[0] == '+' {
        scan_digits(s.drop_first(), max)
    } else {
        scan_digits(s, max)
    }
}

/// The message of each parse error, as Rust words it.
pub open spec fn error_text(e: IntParseError) -> Seq<char> {
    match e {
        IntParseError::Empty => "cannot parse integer from empty string"@,
        IntParseError::InvalidDigit => "invalid digit found in string"@,
        IntParseError::PosOverflow => "number too large to fit in target type"@,
    }
}

impl IntParseError {
    /// The error's message.
    pub fn message(&self) -> (s: &'static str)
        ensures
            s@ == error_text(*self),
    {
        match self {
            IntParseError::Empty => {
                proof {
                    reveal_strlit("cannot parse integer from empty string");
                }
                "cannot parse integer from empty string"
            },
            IntParseError::InvalidDigit => {
                proof {
                    reveal_strlit("invalid digit found in string");
                }
                "invalid digit found in string"
            },
            IntParseError::PosOverflow => {
                proof {
                    reveal_strlit("number too large to fit in target type");
                }
                "number too large to fit in target type"
            },
        }
    }
}

/// `s[from..to]` as a string.
fn string_of_range(s: &Vec<char>, from: usize, to: usize) -> (r: String)
    requires
        from <= to <= s@.len(),
    ensures
        r@ == s@.subrange(from as int, to as int),
{
    let mut r = String::new();
    let mut k = from;
    while k < to
        invariant
            from <= k <= to <= s@.len(),
            r@ == s@.subrange(from as int, k as int),
        decreases to - k,
    {
        push_char(&mut r, s[k]);
        assert(r@ =~= s@.subrange(from as int, k + 1));
        k = k + 1;
    }
    r
}

proof fn lemma_first_from(s: Seq<char>, needle: Seq<char>, i: int, k: int)
    requires
        0 <= i <= k,
        forall|j: int| i <= j < k ==> !#[trigger] occurs_at(s, needle, j),
        k + needle.len() > s.len() || occurs_at(s, needle, k),
    ensures
        first_from(s, needle, i) == if k + needle.len() > s.len() { -1 } else { k },
    decreases k - i,
{
    if i < k {
        assert(!occurs_at(s, needle, i));
        if i + needle.len() <= s.len() {
            lemma_first_from(s, needle, i + 1, k);
        } else {
            assert(k + needle.len() > s.len());
        }
    }
}

proof fn lemma_first_stop(t: Seq<char>, k: int)
    requires
        0 <= k <= t.len(),
        forall|j: int| 0 <= j < k ==> !is_stop(#[trigger] t[j]),
        k == t.len() || is_stop(t[k]),
    ensures
        first_stop(t) == k,
    decreases k,
{
    if k > 0 {
        let u = t.drop_first();
        assert(!is_stop(t[0]));
        assert forall|j: int| 0 <= j < k - 1 implies !is_stop(#[trigger] u[j]) by {
            assert(u[j] == t[j + 1]);
        };
        if k < t.len() {
            assert(u[k - 1] == t[k]);
        }
        lemma_first_stop(u, k - 1);
    }
}

/// The first position at which `needle` occurs in `s`.
fn find_pattern(s: &Vec<char>, needle: &Vec<char>) -> (r: Option<usize>)
    ensures
        match r {
            Some(i) => first_from(s@, needle@, 0) == i as int && i + needle@.len() <= s@.len(),
            None => first_from(s@, needle@, 0) < 0,
        },
{
    let n = s.len();
    let m = needle.len();
    if m > n {
        proof {
            lemma_first_from(s@, needle@, 0, 0);
        }
        return None;
    }
    let mut i: usize = 0;
    while i <= n - m
        invariant
            n == s@.len(),
            m == needle@.len(),
            m <= n,
            i <= n - m + 1,
            forall|j: int| 0 <= j < i ==> !#[trigger] occurs_at(s@, needle@, j),
        decreases n - m + 1 - i,
    {
        let mut k: usize = 0;
        while k < m && s[i + k] == needle[k]
            invariant
                n == s@.len(),
                m == needle@.len(),
                i + m <= n,
                k <= m,
                forall|j: int| 0 <= j < k ==> s@[i + j] == #[trigger] needle@[j],
            decreases m - k,
        {
            k = k + 1;
        }
        if k == m {
            proof {
                assert(s@.subrange(i as int, i + m) =~= needle@);
                lemma_first_from(s@, needle@, 0, i as int);
            }
            return Some(i);
        }
        proof {
            assert(!occurs_at(s@, needle@, i as int)) by {
                if occurs_at(s@, needle@, i as int) {
                    assert(s@.subrange(i as int, i + m)[k as int] == s@[i + k]);
                }
            };
        }
        i = i + 1;
    }
    proof {
        lemma_first_from(s@, needle@, 0, i as int);
    }
    None
}

/// The text of field `key` of the baseline text `s`: after the first
/// `"key":`, leading white space skipped, up to the first `,`, `}` or line
/// break, trimmed; `None` when `"key":` does not occur.
pub fn json_field(s: &str, key: &str) -> (r: Option<String>)
    ensures
        match field_text_of(s@, key@) {
            Some(t) => r matches Some(x) && x@ == t,
            None => r is None,
        },
{
    let v = chars_of(s);
    let kc = chars_of(key);
    let mut needle: Vec<char> = Vec::new();
    needle.push('"');
    let mut j: usize = 0;
    while j < kc.len()
        invariant
            j <= kc@.len(),
            needle@ == seq!['"'] + kc@.subrange(0, j as int),
        decreases kc@.len() - j,
    {
        needle.push(kc[j]);
        proof {
            assert(needle@ =~= seq!['"'] + kc@.subrange(0, j + 1));
        }
        j = j + 1;
    }
    needle.push('"');
    needle.push(':');
    proof {
        assert(needle@ =~= key_pattern(key@));
    }
    let found = find_pattern(&v, &needle);
    match found {
        None => None,
        Some(i) => {
            let n = v.len();
            let start = i + needle.len();
            let ghost rest = v@.subrange(start as int, n as int);
            let mut a = start;
            while a < n && char_is_space(v[a])
                invariant
                    start <= a <= n,
                    n == v@.len(),
                    forall|q: int| start <= q < a ==> is_space(#[trigger] v@[q]),
                decreases n - a,
            {
                a = a + 1;
            }
            proof {
                assert forall|q: int| 0 <= q < a - start implies is_space(#[trigger] rest[q]) by {
                    assert(rest[q] == v@[start + q]);
                };
                if a < n {
                    assert(rest[a - start] == v@[a as int]);
                }
                lemma_trim_start(rest, a - start);
                assert(rest.subrange(a - start, rest.len() as int) =~= v@.subrange(a as int, n as int));
            }
            let ghost t = v@.subrange(a as int, n as int);
            let mut e = a;
            while e < n && !(v[e] == ',' || v[e] == '}' || v[e] == '\n')
                invariant
                    a <= e <= n,
                    n == v@.len(),
                    forall|q: int| a <= q < e ==> !is_stop(#[trigger] v@[q]),
                decreases n - e,
            {
                e = e + 1;
            }
            proof {
                assert forall|q: int| 0 <= q < e - a implies !is_stop(#[trigger] t[q]) by {
                    assert(t[q] == v@[a + q]);
                };
                if e < n {
                    assert(t[e - a] == v@[e as int]);
                }
                lemma_first_stop(t, e - a);
                assert(t.subrange(0, e - a) =~= v@.subrange(a as int, e as int));
            }
            let (x, y) = trim_bounds(&v, a, e);
            Some(string_of_range(&v, x, y))
        },
    }
}

proof fn lemma_unquote_start(s: Seq<char>, k: int)
    requires
        0 <= k <= s.len(),
        forall|j: int| 0 <= j < k ==> #[trigger] s[j] == '"',
        k == s.len() || s[k] != '"',
    ensures
        unquote_start(s) == s.subrange(k, s.len() as int),
    decreases k,
{
    if k > 0 {
        let t = s.drop_first();
        assert(s[0] == '"');
        assert forall|j: int| 0 <= j < k - 1 implies #[trigger] t[j] == '"' by {
            assert(t[j] == s[j + 1]);
        };
        if k < s.len() {
            assert(t[k - 1] == s[k]);
        }
        lemma_unquote_start(t, k - 1);
        assert(t.subrange(k - 1, t.len() as int) =~= s.subrange(k, s.len() as int));
    } else {
        assert(s.subrange(0, s.len() as int) =~= s);
    }
}

proof fn lemma_unquote_end(s: Seq<char>, k: int)
    requires
        0 <= k <= s.len(),
        forall|j: int| k <= j < s.len() ==> #[trigger] s[j] == '"',
        k == 0 || s[k - 1] != '"',
    ensures
        unquote_end(s) == s.subrange(0, k),
    decreases s.len() - k,
{
    if k < s.len() {
        let t = s.drop_last();
        assert(s.last() == '"');
        assert forall|j: int| k <= j < t.len() implies #[trigger] t[j] == '"' by {
            assert(t[j] == s[j]);
        };
        if k > 0 {
            assert(t[k - 1] == s[k - 1]);
        }
        lemma_unquote_end(t, k);
        assert(t.subrange(0, k) =~= s.subrange(0, k));
    } else {
        assert(s.subrange(0, k) =~= s);
    }
}

/// `s` without leading and trailing double quotes.
pub fn unquoted(s: &str) -> (r: String)
    ensures
        r@ == unquote(s@),
{
    let v = chars_of(s);
    let n = v.len();
    let mut a: usize = 0;
    while a < n && v[a] == '"'
        invariant
            a <= n,
            n == v@.len(),
            forall|j: int| 0 <= j < a ==> #[trigger] v@[j] == '"',
        decreases n - a,
    {
        a = a + 1;
    }
    proof {
        lemma_unquote_start(v@, a as int);
    }
    let ghost mid = v@.subrange(a as int, n as int);
    let mut b = n;
    while b > a && v[b - 1] == '"'
        invariant
            a <= b <= n,
            n == v@.len(),
            forall|j: int| b <= j < n ==> #[trigger] v@[j] == '"',
        decreases b - a,
    {
        b = b - 1;
    }
    proof {
        assert forall|j: int| b - a <= j < mid.len() implies #[trigger] mid[j] == '"' by {
            assert(mid[j] == v@[a + j]);
        };
        if b > a {
            assert(mid[b - a - 1] == v@[b - 1]);
        }
        lemma_unquote_end(mid, b - a);
        assert(mid.subrange(0, b - a) =~= v@.subrange(a as int, b as int));
    }
    string_of_range(&v, a, b)
}

proof fn lemma_scan_digits_bound(d: Seq<char>, max: nat)
    ensures
        scan_digits(d, max) matches Ok(v) ==> v <= max,
    decreases d.len(),
{
    if d.len() > 0 {
        lemma_scan_digits_bound(d.drop_last(), max);
    }
}

/// Reads `s[from..to]` as digits, from the left, with the limit `max`.
fn scan_range(s: &Vec<char>, from: usize, to: usize, max: u128) -> (r: Result<u128, IntParseError>)
    requires
        from <= to <= s@.len(),
    ensures
        match scan_digits(s@.subrange(from as int, to as int), max as nat) {
            Ok(v) => r == Ok::<u128, IntParseError>(v as u128),
            Err(e) => r == Err::<u128, IntParseError>(e),
        },
{
    let mut val: u128 = 0;
    let mut k = from;
    proof {
        assert(s@.subrange(from as int, from as int) =~= Seq::<char>::empty());
    }
    while k < to
        invariant
            from <= k <= to <= s@.len(),
            scan_digits(s@.subrange(from as int, k as int), max as nat) == Ok::<nat, IntParseError>(val as nat),
            val <= max,
        decreases to - k,
    {
        let c = s[k];
        let ghost pre = s@.subrange(from as int, k as int);
        let ghost post = s@.subrange(from as int, k + 1);
        proof {
            assert(post.drop_last() =~= pre);
            assert(post.last() == c);
        }
        if !('0' <= c && c <= '9') {
            proof {
                assert(!is_digit(c));
                assert(s@.subrange(from as int, to as int).subrange(0, k + 1 - from) =~= post);
                lemma_scan_tail_error(s@.subrange(from as int, to as int), (k - from) as int, max as nat, IntParseError::InvalidDigit);
            }
            return Err(IntParseError::InvalidDigit);
        }
        let digit = (c as u32 - 48) as u128;
        if digit > max || val > (max - digit) / 10 {
            proof {
                if digit <= max {
                    assert(val * 10 + digit > max) by (nonlinear_arith)
                        requires
                            val > (max - digit) / 10,
                            digit <= max,
                    ;
                }
                assert(s@.subrange(from as int, to as int).subrange(0, k + 1 - from) =~= post);
                lemma_scan_tail_error(s@.subrange(from as int, to as int), (k - from) as int, max as nat, IntParseError::PosOverflow);
            }
            return Err(IntParseError::PosOverflow);
        }
        proof {
            assert(val * 10 + digit <= max) by (nonlinear_arith)
                requires
                    val <= (max - digit) / 10,
                    digit <= max,
            ;
        }
        val = val * 10 + digit;
        k = k + 1;
    }
    Ok(val)
}

/// Once a prefix of `d` reads to an error, the whole of `d` reads to it.
proof fn lemma_scan_tail_error(d: Seq<char>, k: int, max: nat, e: IntParseError)
    requires
        0 <= k < d.len(),
        scan_digits(d.subrange(0, k + 1), max) == Err::<nat, IntParseError>(e),
    ensures
        scan_digits(d, max) == Err::<nat, IntParseError>(e),
    decreases d.len() - k,
{
    if k + 1 < d.len() {
        assert(d.subrange(0, k + 2).drop_last() =~= d.subrange(0, k + 1));
        lemma_scan_tail_error(d, k + 1, max, e);
    } else {
        assert(d.subrange(0, k + 1) =~= d);
    }
}

/// `s` read as an unsigned number no greater than `max`, as Rust's `parse`
/// reads one into a type whose largest value is `max`.
pub fn parse_uint(s: &str, max: u128) -> (r: Result<u128, IntParseError>)
    ensures
        match uint_parse(s@, max as nat) {
            Ok(v) => r == Ok::<u128, IntParseError>(v as u128),
            Err(e) => r == Err::<u128, IntParseError>(e),
        },
{
    let v = chars_of(s);
    let n = v.len();
    if n == 0 {
        return Err(IntParseError::Empty);
    }
    if n == 1 && (v[0] == '+' || v[0] == '-') {
        return Err(IntParseError::InvalidDigit);
    }
    proof {
        lemma_scan_digits_bound(v@.subrange(0, n as int), max as nat);
    }
    if v[0] == '+' {
        proof {
            assert(v@.subrange(1, n as int) =~= v@.drop_first());
        }
        scan_range(&v, 1, n, max)
    } else {
        proof {
            assert(v@.subrange(0, n as int) =~= v@);
        }
        scan_range(&v, 0, n, max)
    }
}

/// The message for a missing field `key`.
pub open spec fn missing_key_text(key: Seq<char>) -> Seq<char> {
    "missing key: "@ + key
}

/// The message for field `key` whose text is no number.
pub open spec fn parse_error_text(key: Seq<char>, e: IntParseError) -> Seq<char> {
    "parse error for "@ + key + ": "@ + error_text(e)
}

/// The text of field `key`, or the message that it is missing.
pub fn field_text(s: &str, key: &str) -> (r: Result<String, String>)
    ensures
        match field_text_of(s@, key@) {
            Some(t) => r matches Ok(x) && x@ == t,
            None => r matches Err(m) && m@ == missing_key_text(key@),
        },
{
    match json_field(s, key) {
        Some(t) => Ok(t),
        None => {
            let mut m = String::new();
            push_str(&mut m, "missing key: ");
            push_str(&mut m, key);
            proof {
                reveal_strlit("missing key: ");
            }
            Err(m)
        },
    }
}

/// `text` read as the unsigned value of field `key`, no greater than
/// `max`, or the message naming the field and the parse error.
pub fn parse_uint_field(key: &str, text: &str, max: u128) -> (r: Result<u128, String>)
    ensures
        match uint_parse(text@, max as nat) {
            Ok(v) => r == Ok::<u128, String>(v as u128),
            Err(e) => r matches Err(m) && m@ == parse_error_text(key@, e),
        },
{
    match parse_uint(text, max) {
        Ok(v) => Ok(v),
        Err(e) => {
            let mut m = String::new();
            push_str(&mut m, "parse error for ");
            push_str(&mut m, key);
            push_str(&mut m, ": ");
            push_str(&mut m, e.message());
            proof {
                reveal_strlit("parse error for ");
                reveal_strlit(": ");
            }
            Err(m)
        },
    }
}

/// The unsigned value of field `key` of the baseline text `s`, quotes
/// around it removed, no greater than `max`; or the message that it is
/// missing or no number.
pub fn uint_field(s: &str, key: &str, max: u128) -> (r: Result<u128, String>)
    ensures
        match field_text_of(s@, key@) {
            None => r matches Err(m) && m@ == missing_key_text(key@),
            Some(t) => match uint_parse(unquote(t), max as nat) {
                Ok(v) => r == Ok::<u128, String>(v as u128),
                Err(e) => r matches Err(m) && m@ == parse_error_text(key@, e),
            },
        },
{
    let t = field_text(s, key)?;
    let u = unquoted(t.as_str());
    parse_uint_field(key, u.as_str(), max)
}

} // verus!
