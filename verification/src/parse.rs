//! Reading the small text formats of the kernel's topology files: trimmed
//! unsigned numbers, sizes with a unit suffix, and CPU lists such as
//! `0-3,8,10-11`.

use vstd::prelude::*;
use vstd::string::StrSliceExecFns;

verus! {

broadcast use vstd::seq_lib::group_seq_properties;

/// `c` is white space in the Unicode sense.
pub open spec fn is_space(c: char) -> bool {
    let u = c as u32;
    ||| 9 <= u <= 13
    ||| u == 32
    ||| u == 0x85
    ||| u == 0xA0
    ||| u == 0x1680
    ||| 0x2000 <= u <= 0x200A
    ||| u == 0x2028
    ||| u == 0x2029
    ||| u == 0x202F
    ||| u == 0x205F
    ||| u == 0x3000
}

/// `s` without its leading white space.
pub open spec fn trim_start(s: Seq<char>) -> Seq<char>
    decreases s.len(),
{
    if s.len() > 0 && is_space(s[0]) {
        trim_start(s.drop_first())
    } else {
        s
    }
}

/// `s` without its trailing white space.
pub open spec fn trim_end(s: Seq<char>) -> Seq<char>
    decreases s.len(),
{
    if s.len() > 0 && is_space(s.last()) {
        trim_end(s.drop_last())
    } else {
        s
    }
}

/// `s` without leading and trailing white space.
pub open spec fn trim(s: Seq<char>) -> Seq<char> {
    trim_end(trim_start(s))
}

/// `c` is an ASCII decimal digit.
pub open spec fn is_digit(c: char) -> bool {
    '0' <= c <= '9'
}

/// Every character of `s` is a decimal digit.
pub open spec fn all_digits(s: Seq<char>) -> bool {
    forall|i: int| 0 <= i < s.len() ==> is_digit(#[trigger] s[i])
}

/// The value of a string of decimal digits.
pub open spec fn digits_value(s: Seq<char>) -> nat
    decreases s.len(),
{
    if s.len() == 0 {
        0
    } else {
        digits_value(s.drop_last()) * 10 + ((s.last() as u32) - 48) as nat
    }
}

/// The digits of an unsigned numeral: `s` without one leading `+`.
pub open spec fn unsigned_digits(s: Seq<char>) -> Seq<char> {
    if s.len() > 0 && s[0] == '+' {
        s.drop_first()
    } else {
        s
    }
}

/// The value of `s` read as an unsigned number no greater than `max`, as
/// Rust reads one: an optional `+`, then one or more decimal digits.
pub open spec fn unsigned_value(s: Seq<char>, max: nat) -> Option<nat> {
    let d = unsigned_digits(s);
    if d.len() > 0 && all_digits(d) && digits_value(d) <= max {
        Some(digits_value(d))
    } else {
        None
    }
}

proof fn lemma_digits_value_grows(s: Seq<char>, k: int)
    requires
        0 <= k <= s.len(),
        all_digits(s),
    ensures
        digits_value(s.subrange(0, k)) <= digits_value(s),
    decreases s.len() - k,
{
    if k < s.len() {
        lemma_digits_value_grows(s, k + 1);
        let p = s.subrange(0, k + 1);
        assert(p.drop_last() =~= s.subrange(0, k));
        assert(is_digit(p.last()));
    } else {
        assert(s.subrange(0, k) =~= s);
    }
}

/// The characters of a string slice.
pub fn chars_of(s: &str) -> (v: Vec<char>)
    ensures
        v@ == s@,
{
    let n = s.unicode_len();
    let mut v: Vec<char> = Vec::new();
    let mut i: usize = 0;
    while i < n
        invariant
            n == s@.len(),
            0 <= i <= n,
            v@ == s@.subrange(0, i as int),
        decreases n - i,
    {
        v.push(s.get_char(i));
        i = i + 1;
    }
    v
}

pub(crate) fn char_is_space(c: char) -> (b: bool)
    ensures
        b == is_space(c),
{
    let u = c as u32;
    (9 <= u && u <= 13) || u == 32 || u == 0x85 || u == 0xA0 || u == 0x1680 || (0x2000 <= u && u <= 0x200A)
        || u == 0x2028 || u == 0x2029 || u == 0x202F || u == 0x205F || u == 0x3000
}

pub(crate) proof fn lemma_trim_start(s: Seq<char>, k: int)
    requires
        0 <= k <= s.len(),
        forall|j: int| 0 <= j < k ==> is_space(#[trigger] s[j]),
        k == s.len() || !is_space(s[k]),
    ensures
        trim_start(s) == s.subrange(k, s.len() as int),
    decreases k,
{
    if k > 0 {
        assert(is_space(s[0]));
        let t = s.drop_first();
        assert forall|j: int| 0 <= j < k - 1 implies is_space(#[trigger] t[j]) by {
            assert(t[j] == s[j + 1]);
        }
        if k < s.len() {
            assert(t[k - 1] == s[k]);
        }
        lemma_trim_start(t, k - 1);
        assert(t.subrange(k - 1, t.len() as int) =~= s.subrange(k, s.len() as int));
    } else {
        assert(s.subrange(0, s.len() as int) =~= s);
    }
}

proof fn lemma_trim_end(s: Seq<char>, k: int)
    requires
        0 <= k <= s.len(),
        forall|j: int| k <= j < s.len() ==> is_space(#[trigger] s[j]),
        k == 0 || !is_space(s[k - 1]),
    ensures
        trim_end(s) == s.subrange(0, k),
    decreases s.len() - k,
{
    if k < s.len() {
        assert(is_space(s.last()));
        let t = s.drop_last();
        assert forall|j: int| k <= j < t.len() implies is_space(#[trigger] t[j]) by {
            assert(t[j] == s[j]);
        }
        if k > 0 {
            assert(t[k - 1] == s[k - 1]);
        }
        lemma_trim_end(t, k);
        assert(t.subrange(0, k) =~= s.subrange(0, k));
    } else {
        assert(s.subrange(0, k) =~= s);
    }
}

/// The bounds of `s[from..to]` without its leading and trailing white space.
pub(crate) fn trim_bounds(s: &Vec<char>, from: usize, to: usize) -> (r: (usize, usize))
    requires
        from <= to <= s@.len(),
    ensures
        from <= r.0 <= r.1 <= to,
        s@.subrange(r.0 as int, r.1 as int) == trim(s@.subrange(from as int, to as int)),
{
    let ghost sub = s@.subrange(from as int, to as int);
    let mut a = from;
    while a < to && char_is_space(s[a])
        invariant
            from <= a <= to,
            to <= s@.len(),
            forall|j: int| from <= j < a ==> is_space(#[trigger] s@[j]),
        decreases to - a,
    {
        a = a + 1;
    }
    proof {
        assert forall|j: int| 0 <= j < a - from implies is_space(#[trigger] sub[j]) by {
            assert(sub[j] == s@[from + j]);
        }
        if a < to {
            assert(sub[a - from] == s@[a as int]);
        }
        lemma_trim_start(sub, a - from);
        assert(sub.subrange(a - from, sub.len() as int) =~= s@.subrange(a as int, to as int));
    }
    let ghost mid = s@.subrange(a as int, to as int);
    let mut b = to;
    while b > a && char_is_space(s[b - 1])
        invariant
            from <= a <= b <= to,
            to <= s@.len(),
            forall|j: int| b <= j < to ==> is_space(#[trigger] s@[j]),
        decreases b - a,
    {
        b = b - 1;
    }
    proof {
        assert forall|j: int| b - a <= j < mid.len() implies is_space(#[trigger] mid[j]) by {
            assert(mid[j] == s@[a + j]);
        }
        if b > a {
            assert(mid[b - a - 1] == s@[b - 1]);
        }
        lemma_trim_end(mid, b - a);
        assert(mid.subrange(0, b - a) =~= s@.subrange(a as int, b as int));
    }
    (a, b)
}

/// Reads `s[from..to]` as an unsigned number no greater than `max`.
pub(crate) fn parse_unsigned_range(s: &Vec<char>, from: usize, to: usize, max: u64) -> (r: Option<u64>)
    requires
        from <= to <= s@.len(),
    ensures
        match unsigned_value(s@.subrange(from as int, to as int), max as nat) {
            Some(v) => r == Some(v as u64),
            None => r is None,
        },
{
    let ghost sub = s@.subrange(from as int, to as int);
    let mut a = from;
    if a < to && s[a] == '+' {
        a = a + 1;
    }
    let ghost d = s@.subrange(a as int, to as int);
    proof {
        assert(unsigned_digits(sub) =~= d);
    }
    if a == to {
        return None;
    }
    let mut val: u64 = 0;
    let mut k = a;
    while k < to
        invariant
            from <= a < to,
            a <= k <= to,
            to <= s@.len(),
            d == s@.subrange(a as int, to as int),
            sub == s@.subrange(from as int, to as int),
            unsigned_digits(sub) == d,
            forall|j: int| a <= j < k ==> is_digit(#[trigger] s@[j]),
            val == digits_value(s@.subrange(a as int, k as int)),
            val <= max,
        decreases to - k,
    {
        let c = s[k];
        let ghost pre = s@.subrange(a as int, k as int);
        let ghost post = s@.subrange(a as int, k as int + 1);
        proof {
            assert(post.drop_last() =~= pre);
        }
        if !('0' <= c && c <= '9') {
            proof {
                assert(d[k - a] == c);
                assert(!all_digits(d));
                assert(unsigned_value(sub, max as nat) is None);
            }
            return None;
        }
        let digit = (c as u32 - 48) as u64;
        if digit > max || val > (max - digit) / 10 {
            proof {
                assert(digits_value(post) == val * 10 + digit);
                if digit <= max {
                    assert(val * 10 + digit > max) by (nonlinear_arith)
                        requires
                            val > (max - digit) / 10,
                            digit <= max,
                    ;
                }
                if all_digits(d) {
                    lemma_digits_value_grows(d, k + 1 - a);
                    assert(d.subrange(0, k + 1 - a) =~= post);
                }
                assert(unsigned_value(sub, max as nat) is None);
            }
            return None;
        }
        proof {
            assert(val * 10 + digit <= max) by (nonlinear_arith)
                requires
                    val <= (max - digit) / 10,
                    digit <= max,
            ;
        }
        val = val * 10 + digit;
        k = k + 1;
    }
    proof {
        assert(all_digits(d));
    }
    Some(val)
}

/// The pieces of `s` between the occurrences of `c`; an empty string has
/// one empty piece.
pub open spec fn split_on(s: Seq<char>, c: char) -> Seq<Seq<char>>
    decreases s.len(),
{
    if s.len() == 0 {
        seq![Seq::<char>::empty()]
    } else {
        let p = split_on(s.drop_last(), c);
        if s.last() == c {
            p.push(Seq::<char>::empty())
        } else {
            p.update(p.len() - 1, p.last().push(s.last()))
        }
    }
}

proof fn lemma_split_on_len(s: Seq<char>, c: char)
    ensures
        split_on(s, c).len() >= 1,
    decreases s.len(),
{
    if s.len() > 0 {
        lemma_split_on_len(s.drop_last(), c);
    }
}

/// The position of the first `c` in `s`, or the length of `s` when there
/// is none.
pub open spec fn first_index(s: Seq<char>, c: char) -> int
    decreases s.len(),
{
    if s.len() == 0 {
        0
    } else if s[0] == c {
        0
    } else {
        1 + first_index(s.drop_first(), c)
    }
}

proof fn lemma_first_index(s: Seq<char>, c: char, k: int)
    requires
        0 <= k <= s.len(),
        forall|j: int| 0 <= j < k ==> #[trigger] s[j] != c,
        k == s.len() || s[k] == c,
    ensures
        first_index(s, c) == k,
    decreases k,
{
    if k > 0 {
        let t = s.drop_first();
        assert forall|j: int| 0 <= j < k - 1 implies #[trigger] t[j] != c by {
            assert(t[j] == s[j + 1]);
        }
        if k < s.len() {
            assert(t[k - 1] == s[k]);
        }
        lemma_first_index(t, c, k - 1);
    }
}

/// The numbers `lo` to `hi`, both included.
pub open spec fn range_incl(lo: nat, hi: nat) -> Seq<usize> {
    Seq::new(if hi >= lo { (hi - lo + 1) as nat } else { 0 }, |k: int| (lo + k) as usize)
}

/// The CPUs one trimmed entry of a CPU list names: `a-b` names `a` to `b`,
/// `n` names `n`; anything else names none.
pub open spec fn entry_cpus(q: Seq<char>) -> Seq<usize> {
    let i = first_index(q, '-');
    if i < q.len() {
        match (unsigned_value(q.subrange(0, i), usize::MAX as nat), unsigned_value(q.subrange(i + 1, q.len() as int), usize::MAX as nat)) {
            (Some(lo), Some(hi)) => range_incl(lo, hi),
            _ => Seq::empty(),
        }
    } else {
        match unsigned_value(q, usize::MAX as nat) {
            Some(n) => seq![n as usize],
            None => Seq::empty(),
        }
    }
}

/// The CPUs the entries name, in order.
pub open spec fn entries_cpus(ps: Seq<Seq<char>>) -> Seq<usize>
    decreases ps.len(),
{
    if ps.len() == 0 {
        Seq::empty()
    } else {
        entries_cpus(ps.drop_last()) + entry_cpus(trim(ps.last()))
    }
}

/// The CPUs a CPU list names: the comma-separated entries of the trimmed
/// text, each trimmed.
pub open spec fn cpu_list(s: Seq<char>) -> Seq<usize> {
    entries_cpus(split_on(trim(s), ','))
}

fn entry_cpus_of(v: &Vec<char>, from: usize, to: usize, out: &mut Vec<usize>)
    requires
        from <= to <= v@.len(),
    ensures
        final(out)@ == old(out)@ + entry_cpus(trim(v@.subrange(from as int, to as int))),
{
    let (a, b) = trim_bounds(v, from, to);
    let ghost q = v@.subrange(a as int, b as int);
    let mut i = a;
    while i < b && v[i] != '-'
        invariant
            a <= i <= b,
            b <= v@.len(),
            forall|j: int| a <= j < i ==> #[trigger] v@[j] != '-',
        decreases b - i,
    {
        i = i + 1;
    }
    proof {
        assert forall|j: int| 0 <= j < i - a implies #[trigger] q[j] != '-' by {
            assert(q[j] == v@[a + j]);
        }
        if i < b {
            assert(q[i - a] == v@[i as int]);
        }
        lemma_first_index(q, '-', i - a);
    }
    if i < b {
        let lo = parse_unsigned_range(v, a, i, usize::MAX as u64);
        let hi = parse_unsigned_range(v, i + 1, b, usize::MAX as u64);
        proof {
            assert(q.subrange(0, i - a) =~= v@.subrange(a as int, i as int));
            assert(q.subrange(i - a + 1, q.len() as int) =~= v@.subrange(i + 1, b as int));
        }
        match (lo, hi) {
            (Some(lo), Some(hi)) => {
                let lo = lo as usize;
                let hi = hi as usize;
                let ghost o0 = out@;
                if lo <= hi {
                    let mut c = lo;
                    let mut done = false;
                    while !done
                        invariant
                            lo <= c <= hi,
                            !done ==> out@ == o0 + Seq::new((c - lo) as nat, |k: int| (lo + k) as usize),
                            done ==> out@ == o0 + Seq::new((hi - lo + 1) as nat, |k: int| (lo + k) as usize),
                        decreases hi - c + (if done { 0int } else { 1int }),
                    {
                        out.push(c);
                        proof {
                            assert(out@ =~= o0 + Seq::new((c - lo + 1) as nat, |k: int| (lo + k) as usize));
                        }
                        if c == hi {
                            done = true;
                        } else {
                            c = c + 1;
                        }
                    }
                    proof {
                        assert(out@ =~= o0 + range_incl(lo as nat, hi as nat));
                    }
                } else {
                    proof {
                        assert(range_incl(lo as nat, hi as nat) =~= Seq::<usize>::empty());
                        assert(out@ =~= o0 + range_incl(lo as nat, hi as nat));
                    }
                }
            },
            _ => {
                proof {
                    assert(out@ =~= old(out)@ + Seq::<usize>::empty());
                }
            },
        }
    } else {
        let n = parse_unsigned_range(v, a, b, usize::MAX as u64);
        match n {
            Some(n) => {
                out.push(n as usize);
                proof {
                    assert(out@ =~= old(out)@ + seq![n as usize]);
                }
            },
            None => {
                proof {
                    assert(out@ =~= old(out)@ + Seq::<usize>::empty());
                }
            },
        }
    }
}

/// The CPUs a CPU list such as `0-3,8` names, in the order written.
pub fn parse_cpu_list(s: &str) -> (r: Vec<usize>)
    ensures
        r@ == cpu_list(s@),
{
    let v = chars_of(s);
    let (a, b) = trim_bounds(&v, 0, v.len());
    let ghost t = v@.subrange(a as int, b as int);
    proof {
        assert(v@.subrange(0, v@.len() as int) =~= v@);
    }
    let mut out: Vec<usize> = Vec::new();
    let mut start = a;
    let mut k = a;
    while k < b
        invariant
            a <= start <= k <= b,
            b <= v@.len(),
            t == v@.subrange(a as int, b as int),
            split_on(t.subrange(0, k - a), ',').len() >= 1,
            split_on(t.subrange(0, k - a), ',').last() == v@.subrange(start as int, k as int),
            out@ == entries_cpus(split_on(t.subrange(0, k - a), ',').drop_last()),
        decreases b - k,
    {
        let ghost pre = t.subrange(0, k - a);
        let ghost post = t.subrange(0, k - a + 1);
        proof {
            assert(post.drop_last() =~= pre);
            assert(post.last() == v@[k as int]);
            lemma_split_on_len(pre, ',');
        }
        if v[k] == ',' {
            entry_cpus_of(&v, start, k, &mut out);
            proof {
                let p = split_on(pre, ',');
                assert(split_on(post, ',') == p.push(Seq::<char>::empty()));
                assert(split_on(post, ',').drop_last() == p);
                assert(p.drop_last().push(p.last()) =~= p);
                assert(v@.subrange(k + 1, k + 1) =~= Seq::<char>::empty());
            }
            start = k + 1;
        } else {
            proof {
                let p = split_on(pre, ',');
                assert(split_on(post, ',').drop_last() =~= p.drop_last());
                assert(v@.subrange(start as int, k + 1) =~= v@.subrange(start as int, k as int).push(v@[k as int]));
            }
        }
        k = k + 1;
    }
    entry_cpus_of(&v, start, b, &mut out);
    proof {
        assert(t.subrange(0, b - a) =~= t);
        let p = split_on(t, ',');
        assert(p.drop_last().push(p.last()) =~= p);
    }
    out
}

/// The value of a trimmed unsigned number, as the kernel's one-number
/// files hold it.
pub fn parse_trimmed_u64(s: &str) -> (r: Option<u64>)
    ensures
        match unsigned_value(trim(s@), u64::MAX as nat) {
            Some(v) => r == Some(v as u64),
            None => r is None,
        },
{
    let v = chars_of(s);
    let (a, b) = trim_bounds(&v, 0, v.len());
    proof {
        assert(v@.subrange(0, v@.len() as int) =~= v@);
    }
    parse_unsigned_range(&v, a, b, u64::MAX)
}

/// A cache size in kilobytes as the kernel writes it: a number followed
/// by `K` (kilobytes) or `M` (megabytes), or a bare number of bytes.
pub open spec fn size_kb_value(s: Seq<char>) -> Option<nat> {
    let t = trim(s);
    if t.len() > 0 && t.last() == 'K' {
        unsigned_value(t.drop_last(), u64::MAX as nat)
    } else if t.len() > 0 && t.last() == 'M' {
        match unsigned_value(t.drop_last(), u64::MAX as nat) {
            Some(v) => Some(v * 1024),
            None => None,
        }
    } else {
        match unsigned_value(t, u64::MAX as nat) {
            Some(v) => Some(v / 1024),
            None => None,
        }
    }
}

/// Reads a cache size in kilobytes.  A size in megabytes must fit in
/// kilobytes.
pub fn parse_size_kb(s: &str) -> (r: Option<u64>)
    requires
        match size_kb_value(s@) {
            Some(v) => v <= u64::MAX,
            None => true,
        },
    ensures
        match size_kb_value(s@) {
            Some(v) => r == Some(v as u64),
            None => r is None,
        },
{
    let v = chars_of(s);
    let (a, b) = trim_bounds(&v, 0, v.len());
    proof {
        assert(v@.subrange(0, v@.len() as int) =~= v@);
        let t = trim(s@);
        if t.len() > 0 {
            assert(t.drop_last() =~= v@.subrange(a as int, b - 1));
        }
    }
    if a < b && v[b - 1] == 'K' {
        parse_unsigned_range(&v, a, b - 1, u64::MAX)
    } else if a < b && v[b - 1] == 'M' {
        match parse_unsigned_range(&v, a, b - 1, u64::MAX) {
            Some(x) => Some(x * 1024),
            None => None,
        }
    } else {
        match parse_unsigned_range(&v, a, b, u64::MAX) {
            Some(x) => Some(x / 1024),
            None => None,
        }
    }
}

/// The bounds of the pieces of `s[from..to]` between the occurrences of
/// `c`, in order.
pub(crate) fn split_bounds(s: &Vec<char>, from: usize, to: usize, c: char) -> (r: Vec<(usize, usize)>)
    requires
        from <= to <= s@.len(),
    ensures
        r@.len() == split_on(s@.subrange(from as int, to as int), c).len(),
        forall|k: int| 0 <= k < r@.len() ==> from <= (#[trigger] r@[k]).0 <= r@[k].1 <= to
            && s@.subrange(r@[k].0 as int, r@[k].1 as int) == split_on(s@.subrange(from as int, to as int), c)[k],
{
    let ghost t = s@.subrange(from as int, to as int);
    let mut out: Vec<(usize, usize)> = Vec::new();
    let mut start = from;
    let mut k = from;
    proof {
        assert(t.subrange(0, 0) =~= Seq::<char>::empty());
        assert(s@.subrange(from as int, from as int) =~= Seq::<char>::empty());
    }
    while k < to
        invariant
            from <= start <= k <= to,
            to <= s@.len(),
            t == s@.subrange(from as int, to as int),
            split_on(t.subrange(0, k - from), c).len() >= 1,
            split_on(t.subrange(0, k - from), c).last() == s@.subrange(start as int, k as int),
            out@.len() + 1 == split_on(t.subrange(0, k - from), c).len(),
            forall|q: int| 0 <= q < out@.len() ==> from <= (#[trigger] out@[q]).0 <= out@[q].1 <= start
                && s@.subrange(out@[q].0 as int, out@[q].1 as int) == split_on(t.subrange(0, k - from), c)[q],
        decreases to - k,
    {
        let ghost pre = t.subrange(0, k - from);
        let ghost post = t.subrange(0, k - from + 1);
        proof {
            assert(post.drop_last() =~= pre);
            assert(post.last() == s@[k as int]);
            lemma_split_on_len(pre, c);
        }
        if s[k] == c {
            out.push((start, k));
            proof {
                let p = split_on(pre, c);
                assert(split_on(post, c) == p.push(Seq::<char>::empty()));
                assert(s@.subrange(k + 1, k + 1) =~= Seq::<char>::empty());
                assert forall|q: int| 0 <= q < out@.len() implies from <= (#[trigger] out@[q]).0 <= out@[q].1 <= k + 1
                    && s@.subrange(out@[q].0 as int, out@[q].1 as int) == split_on(post, c)[q] by {
                    if q < out@.len() - 1 {
                        assert(split_on(post, c)[q] == p[q]);
                    } else {
                        assert(split_on(post, c)[q] == p.last());
                    }
                }
            }
            start = k + 1;
        } else {
            proof {
                let p = split_on(pre, c);
                assert(split_on(post, c) == p.update(p.len() - 1, p.last().push(s@[k as int])));
                assert(s@.subrange(start as int, k + 1) =~= s@.subrange(start as int, k as int).push(s@[k as int]));
                assert forall|q: int| 0 <= q < out@.len() implies from <= (#[trigger] out@[q]).0 <= out@[q].1 <= start
                    && s@.subrange(out@[q].0 as int, out@[q].1 as int) == split_on(post, c)[q] by {
                    assert(split_on(post, c)[q] == p[q]);
                }
            }
        }
        k = k + 1;
    }
    out.push((start, to));
    proof {
        assert(t.subrange(0, to - from) =~= t);
    }
    out
}

} // verus!
