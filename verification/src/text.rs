//! Character and string helpers shared by the rest of the library.

use vstd::prelude::*;
use vstd::std_specs::iter::IteratorSpec;
use crate::regex::{char_is_whitespace, whitespace};

verus! {

broadcast use vstd::string::group_string_axioms;

/// Appends one character to a `String` (`String::push`).
/// Trusted: the new contents are the old contents followed by `c`.
#[verifier::external_body]
pub(crate) fn push_char(s: &mut String, c: char)
    ensures
        final(s)@ == old(s)@.push(c),
{
    s.push(c);
}

/// The characters of a string slice, in order.
pub fn chars_of(s: &str) -> (v: Vec<char>)
    ensures
        v@ == s@,
{
    let mut out: Vec<char> = Vec::new();
    let mut it = s.chars();
    loop
        invariant
            it.obeys_prophetic_iter_laws(),
            out@ + it.remaining() == s@,
            it.decrease() is Some,
        decreases it.decrease()->0,
    {
        let ghost before = it.remaining();
        match it.next() {
            Some(c) => {
                out.push(c);
                assert(out@ + it.remaining() =~= s@) by {
                    assert(before =~= seq![c] + before.drop_first());
                }
            },
            None => {
                assert(out@ =~= s@);
                return out;
            },
        }
    }
}

/// A string holding exactly the given characters.
pub fn string_of(v: &[char]) -> (s: String)
    ensures
        s@ == v@,
{
    let mut out = String::new();
    let mut i: usize = 0;
    while i < v.len()
        invariant
            i <= v@.len(),
            out@ == v@.subrange(0, i as int),
        decreases v@.len() - i,
    {
        push_char(&mut out, v[i]);
        assert(v@.subrange(0, i + 1) =~= v@.subrange(0, i as int).push(v@[i as int]));
        i = i + 1;
    }
    assert(v@.subrange(0, v@.len() as int) =~= v@);
    out
}


/// A new string made of `prefix` followed by `rest`.
pub fn concat_str(prefix: &str, rest: &str) -> (s: String)
    ensures
        s@ == prefix@ + rest@,
{
    let mut out = String::from_str(prefix);
    out.append(rest);
    out
}

/// The pieces of `s` between occurrences of `sep`, as `str::split` yields them:
/// `n` separators give `n + 1` pieces, empty ones included.
pub open spec fn split_chars(s: Seq<char>, sep: char) -> Seq<Seq<char>>
    decreases s.len(),
{
    if s.len() == 0 {
        seq![Seq::<char>::empty()]
    } else {
        let r = split_chars(s.drop_last(), sep);
        if s.last() == sep {
            r.push(Seq::<char>::empty())
        } else {
            r.update(r.len() - 1, r.last().push(s.last()))
        }
    }
}

pub proof fn lemma_split_chars_nonempty(s: Seq<char>, sep: char)
    ensures
        split_chars(s, sep).len() >= 1,
    decreases s.len(),
{
    if s.len() > 0 {
        lemma_split_chars_nonempty(s.drop_last(), sep);
    }
}

/// A sequence without `sep` splits into itself alone.
pub proof fn lemma_split_whole(t: Seq<char>, sep: char)
    requires
        !t.contains(sep),
    ensures
        split_chars(t, sep) == seq![t],
    decreases t.len(),
{
    if t.len() > 0 {
        let u = t.drop_last();
        assert(!u.contains(sep)) by {
            if u.contains(sep) {
                let k = choose|k: int| 0 <= k < u.len() && u[k] == sep;
                assert(t[k] == sep);
            }
        }
        lemma_split_whole(u, sep);
        assert(t.last() != sep) by {
            assert(t[t.len() - 1] == t.last());
        }
        assert(u.push(t.last()) =~= t);
        assert(split_chars(t, sep) =~= seq![t]);
    } else {
        assert(t =~= Seq::<char>::empty());
    }
}

/// After a `sep`, the split goes on with the part that follows it.
pub proof fn lemma_split_then(a: Seq<char>, sep: char, t: Seq<char>)
    requires
        !t.contains(sep),
    ensures
        split_chars(a + seq![sep] + t, sep) == split_chars(a, sep).push(t),
    decreases t.len(),
{
    if t.len() == 0 {
        let w = a.push(sep);
        assert(a + seq![sep] + t =~= w);
        assert(w.drop_last() =~= a);
        assert(w.last() == sep);
        assert(t =~= Seq::<char>::empty());
        assert(split_chars(w, sep) == split_chars(a, sep).push(Seq::<char>::empty()));
    } else {
        let u = t.drop_last();
        assert(!u.contains(sep)) by {
            if u.contains(sep) {
                let k = choose|k: int| 0 <= k < u.len() && u[k] == sep;
                assert(t[k] == sep);
            }
        }
        lemma_split_then(a, sep, u);
        let whole = a + seq![sep] + t;
        assert(whole.drop_last() =~= a + seq![sep] + u);
        assert(whole.last() == t.last());
        assert(t.last() != sep) by {
            assert(t[t.len() - 1] == t.last());
        }
        lemma_split_chars_nonempty(a, sep);
        let r = split_chars(a, sep).push(u);
        assert(r.update(r.len() - 1, r.last().push(t.last())) =~= split_chars(a, sep).push(t)) by {
            assert(u.push(t.last()) =~= t);
        }
    }
}

/// Splits a character sequence at every `sep`.
pub fn split_on(s: &[char], sep: char) -> (pieces: Vec<Vec<char>>)
    ensures
        pieces@.len() == split_chars(s@, sep).len(),
        forall|i: int| 0 <= i < pieces@.len() ==> #[trigger] pieces@[i]@ == split_chars(s@, sep)[i],
{
    let mut done: Vec<Vec<char>> = Vec::new();
    let mut cur: Vec<char> = Vec::new();
    let mut i: usize = 0;
    while i < s.len()
        invariant
            i <= s@.len(),
            done@.len() + 1 == split_chars(s@.subrange(0, i as int), sep).len(),
            forall|j: int| 0 <= j < done@.len() ==> #[trigger] done@[j]@ == split_chars(s@.subrange(0, i as int), sep)[j],
            cur@ == split_chars(s@.subrange(0, i as int), sep).last(),
        decreases s@.len() - i,
    {
        let ghost pre = s@.subrange(0, i as int);
        let ghost next = s@.subrange(0, i + 1);
        assert(next.drop_last() =~= pre);
        assert(next.last() == s@[i as int]);
        proof { lemma_split_chars_nonempty(pre, sep); }
        let c = s[i];
        if c == sep {
            done.push(cur);
            cur = Vec::new();
            assert(cur@ =~= Seq::<char>::empty());
        } else {
            cur.push(c);
        }
        i = i + 1;
    }
    assert(s@.subrange(0, s@.len() as int) =~= s@);
    done.push(cur);
    done
}

/// Whether two string slices hold the same characters.
pub fn str_eq(a: &str, b: &str) -> (r: bool)
    ensures
        r == (a@ == b@),
{
    let x = chars_of(a);
    let y = chars_of(b);
    chars_eq(&x, &y)
}

/// Whether two character vectors are equal.
pub fn chars_eq(x: &Vec<char>, y: &Vec<char>) -> (r: bool)
    ensures
        r == (x@ == y@),
{
    if x.len() != y.len() {
        return false;
    }
    let mut i: usize = 0;
    while i < x.len()
        invariant
            x@.len() == y@.len(),
            i <= x@.len(),
            forall|j: int| 0 <= j < i ==> x@[j] == y@[j],
        decreases x@.len() - i,
    {
        if x[i] != y[i] {
            return false;
        }
        i = i + 1;
    }
    assert(x@ =~= y@);
    true
}

/// A string holding the characters `v[lo..hi]`.
pub fn string_of_range(v: &Vec<char>, lo: usize, hi: usize) -> (s: String)
    requires
        lo <= hi <= v@.len(),
    ensures
        s@ == v@.subrange(lo as int, hi as int),
{
    let mut out = String::new();
    let mut i: usize = lo;
    while i < hi
        invariant
            lo <= i <= hi,
            hi <= v@.len(),
            out@ == v@.subrange(lo as int, i as int),
        decreases hi - i,
    {
        push_char(&mut out, v[i]);
        assert(v@.subrange(lo as int, i + 1) =~= v@.subrange(lo as int, i as int).push(v@[i as int]));
        i = i + 1;
    }
    out
}

/// A one-character string.
pub fn string_of_char(c: char) -> (s: String)
    ensures
        s@ == seq![c],
{
    let mut out = String::new();
    push_char(&mut out, c);
    assert(out@ =~= seq![c]);
    out
}

/// The decimal digits of `n`, most significant first (`"0"` for zero).
pub open spec fn decimal(n: nat) -> Seq<char>
    decreases n,
{
    if n < 10 {
        seq![digit_char(n)]
    } else {
        decimal(n / 10).push(digit_char(n % 10))
    }
}

/// The character of a decimal digit.
pub open spec fn digit_char(d: nat) -> char {
    (('0' as u32) + d) as char
}

/// `s` preceded by as many `fill` characters as make it `width` long.
pub open spec fn pad_left(s: Seq<char>, width: nat, fill: char) -> Seq<char> {
    if s.len() >= width {
        s
    } else {
        Seq::new((width - s.len()) as nat, |_i: int| fill) + s
    }
}

/// The decimal form of `n`.
pub fn decimal_string(n: u64) -> (s: String)
    ensures
        s@ == decimal(n as nat),
    decreases n,
{
    if n < 10 {
        let c = digit_of(n);
        string_of_char(c)
    } else {
        let mut head = decimal_string(n / 10);
        let c = digit_of(n % 10);
        push_char(&mut head, c);
        head
    }
}

fn digit_of(d: u64) -> (c: char)
    requires
        d < 10,
    ensures
        c == digit_char(d as nat),
{
    let v = (d as u8) + 48;
    v as char
}

/// The decimal form of `n`, with a leading `-` where it is negative.
pub fn signed_decimal_string(n: i64) -> (s: String)
    ensures
        s@ == signed_decimal(n as int),
{
    if n < 0 {
        let magnitude: u64 = if n == i64::MIN {
            9223372036854775808u64
        } else {
            (-n) as u64
        };
        let digits = decimal_string(magnitude);
        concat_str("-", digits.as_str())
    } else {
        decimal_string(n as u64)
    }
}

pub open spec fn signed_decimal(n: int) -> Seq<char> {
    if n < 0 {
        "-"@ + decimal((-n) as nat)
    } else {
        decimal(n as nat)
    }
}

/// `s` right-aligned in a field of `width` characters filled with `fill`.
pub fn pad_left_string(s: &str, width: usize, fill: char) -> (r: String)
    ensures
        r@ == pad_left(s@, width as nat, fill),
{
    let cs = chars_of(s);
    let mut out = String::new();
    if cs.len() < width {
        let missing = width - cs.len();
        let mut i: usize = 0;
        while i < missing
            invariant
                i <= missing,
                out@ == Seq::new(i as nat, |_k: int| fill),
            decreases missing - i,
        {
            push_char(&mut out, fill);
            assert(out@ =~= Seq::new((i + 1) as nat, |_k: int| fill));
            i = i + 1;
        }
    }
    out.append(s);
    assert(out@ =~= pad_left(s@, width as nat, fill));
    out
}

/// The value of a decimal digit character.
pub open spec fn digit_value(c: char) -> int {
    (c as int) - ('0' as int)
}

pub open spec fn is_digit(c: char) -> bool {
    '0' <= c && c <= '9'
}

/// The number that the digits of `s` spell, most significant first.
pub open spec fn digits_value(s: Seq<char>) -> nat
    decreases s.len(),
{
    if s.len() == 0 {
        0
    } else {
        (digits_value(s.drop_last()) * 10 + digit_value(s.last())) as nat
    }
}

/// What `str::parse` gives for an unsigned integer type whose largest value
/// is `max`: an optional `+`, then one or more ASCII digits, with a value no
/// larger than `max`.
pub open spec fn parse_unsigned(s: Seq<char>, max: nat) -> Option<nat> {
    let body = unsigned_body(s);
    if body.len() > 0 && all_digits(body) && digits_value(body) <= max {
        Some(digits_value(body))
    } else {
        None
    }
}

/// `s` without a leading `+`.
pub open spec fn unsigned_body(s: Seq<char>) -> Seq<char> {
    if s.len() > 0 && s[0] == '+' {
        s.skip(1)
    } else {
        s
    }
}

pub open spec fn all_digits(s: Seq<char>) -> bool {
    forall|i: int| 0 <= i < s.len() ==> is_digit(#[trigger] s[i])
}

/// What `str::parse::<i64>` gives: an optional sign, then one or more ASCII
/// digits, with a value that fits.
pub open spec fn parse_signed(s: Seq<char>) -> Option<int> {
    if s.len() > 0 && s[0] == '-' {
        let body = s.skip(1);
        if body.len() > 0 && all_digits(body) && digits_value(body) <= 9223372036854775808 {
            Some(-digits_value(body))
        } else {
            None
        }
    } else {
        match parse_unsigned(s, 9223372036854775807) {
            Some(v) => Some(v as int),
            None => None,
        }
    }
}

proof fn lemma_digits_push(s: Seq<char>, c: char)
    ensures
        digits_value(s.push(c)) == digits_value(s) * 10 + digit_value(c) || digit_value(c) < 0,
{
    assert(s.push(c).drop_last() =~= s);
}

/// The value of the digits `cs[from..]`, or `None` where one is no digit or
/// the value exceeds `max`.
fn digits_up_to(cs: &Vec<char>, from: usize, max: u64) -> (r: Option<u64>)
    requires
        from <= cs@.len(),
        max >= 9,
    ensures
        match r {
            Some(v) => all_digits(cs@.skip(from as int)) && v == digits_value(cs@.skip(from as int)) && v <= max,
            None => !(all_digits(cs@.skip(from as int)) && digits_value(cs@.skip(from as int)) <= max),
        },
{
    let mut acc: u64 = 0;
    let mut i = from;
    while i < cs.len()
        invariant
            from <= i <= cs@.len(),
            forall|k: int| from <= k < i ==> is_digit(#[trigger] cs@[k]),
            acc == digits_value(cs@.subrange(from as int, i as int)),
            acc <= max,
            max >= 9,
        decreases cs@.len() - i,
    {
        let c = cs[i];
        let ghost pre = cs@.subrange(from as int, i as int);
        assert(cs@.subrange(from as int, i + 1) =~= pre.push(c));
        proof {
            lemma_digits_push(pre, c);
        }
        if !('0' <= c && c <= '9') {
            assert(cs@.skip(from as int)[i - from] == c);
            return None;
        }
        let d = (c as u32 - 48) as u64;
        assert(d == digit_value(c));
        if acc > (max - d) / 10 {
            proof {
                let body = cs@.skip(from as int);
                assert(body.subrange(0, i - from) =~= pre);
                assert(body[i - from] == c);
                assert forall|k: int| 0 <= k < i - from + 1 implies is_digit(#[trigger] body[k]) by {
                    assert(body[k] == cs@[from + k]);
                }
                lemma_digits_monotone(body, (i - from + 1) as int, acc, d, max);
            }
            return None;
        }
        assert(acc * 10 + d <= max) by (nonlinear_arith)
            requires
                acc <= (max - d) / 10,
                d <= max,
        ;
        acc = acc * 10 + d;
        i = i + 1;
    }
    assert(cs@.subrange(from as int, cs@.len() as int) =~= cs@.skip(from as int));
    assert forall|k: int| 0 <= k < cs@.skip(from as int).len() implies is_digit(#[trigger] cs@.skip(from as int)[k]) by {
        assert(cs@.skip(from as int)[k] == cs@[from + k]);
    }
    Some(acc)
}

/// Once a prefix of the digits exceeds `max`, so does the whole.
proof fn lemma_digits_monotone(s: Seq<char>, n: int, acc: u64, d: u64, max: u64)
    requires
        1 <= n <= s.len(),
        forall|i: int| 0 <= i < n ==> is_digit(#[trigger] s[i]),
        digits_value(s.subrange(0, n - 1)) == acc,
        digit_value(s[n - 1]) == d,
        d <= 9,
        acc > (max - d) / 10,
    ensures
        !(all_digits(s) && digits_value(s) <= max),
{
    assert(s.subrange(0, n).drop_last() =~= s.subrange(0, n - 1));
    assert(s.subrange(0, n).last() == s[n - 1]);
    assert(digits_value(s.subrange(0, n)) == acc * 10 + d);
    assert(acc * 10 + d > max) by (nonlinear_arith)
        requires
            acc > (max - d) / 10,
            d <= max || d > max,
    ;
    lemma_digits_prefix_bound(s, n);
}

/// The value of all-digit text is at least that of any of its prefixes.
proof fn lemma_digits_prefix_bound(s: Seq<char>, n: int)
    requires
        0 <= n <= s.len(),
    ensures
        all_digits(s) ==> digits_value(s) >= digits_value(s.subrange(0, n)),
    decreases s.len() - n,
{
    if n < s.len() {
        lemma_digits_prefix_bound(s, n + 1);
        assert(s.subrange(0, n + 1) =~= s.subrange(0, n).push(s[n]));
        assert(s.subrange(0, n + 1).drop_last() =~= s.subrange(0, n));
        if all_digits(s) {
            assert(is_digit(s[n]));
            assert(digits_value(s.subrange(0, n + 1)) >= digits_value(s.subrange(0, n))) by (nonlinear_arith)
                requires
                    digits_value(s.subrange(0, n + 1)) == digits_value(s.subrange(0, n)) * 10 + digit_value(s[n]),
                    digit_value(s[n]) >= 0,
            ;
        }
    } else {
        assert(s.subrange(0, n) =~= s);
    }
}

/// `s.parse::<u64>()`.
pub fn parse_u64(s: &str) -> (r: Option<u64>)
    ensures
        match parse_unsigned(s@, u64::MAX as nat) {
            Some(v) => r == Some(v as u64),
            None => r is None,
        },
{
    parse_bounded(s, u64::MAX)
}

/// `s.parse::<u32>()`.
pub fn parse_u32(s: &str) -> (r: Option<u32>)
    ensures
        match parse_unsigned(s@, u32::MAX as nat) {
            Some(v) => r == Some(v as u32),
            None => r is None,
        },
{
    match parse_bounded(s, u32::MAX as u64) {
        Some(v) => Some(v as u32),
        None => None,
    }
}

/// `s.parse::<usize>()`.
pub fn parse_usize(s: &str) -> (r: Option<usize>)
    ensures
        match parse_unsigned(s@, usize::MAX as nat) {
            Some(v) => r == Some(v as usize),
            None => r is None,
        },
{
    match parse_bounded(s, usize::MAX as u64) {
        Some(v) => Some(v as usize),
        None => None,
    }
}

/// An unsigned decimal number no larger than `max`.
fn parse_bounded(s: &str, max: u64) -> (r: Option<u64>)
    requires
        max >= 9,
    ensures
        match parse_unsigned(s@, max as nat) {
            Some(v) => r == Some(v as u64),
            None => r is None,
        },
{
    let cs = chars_of(s);
    let from: usize = if cs.len() > 0 && cs[0] == '+' {
        1
    } else {
        0
    };
    if from == 0 {
        assert(cs@.skip(0) =~= s@);
    }
    assert(cs@.skip(from as int) == (if s@.len() > 0 && s@[0] == '+' { s@.skip(1) } else { s@ }));
    if from == cs.len() {
        assert(cs@.skip(from as int).len() == 0);
        return None;
    }
    let r = digits_up_to(&cs, from, max);
    r
}

/// `s.parse::<i64>()`.
pub fn parse_i64(s: &str) -> (r: Option<i64>)
    ensures
        match parse_signed(s@) {
            Some(v) => r == Some(v as i64),
            None => r is None,
        },
{
    let cs = chars_of(s);
    if cs.len() > 0 && cs[0] == '-' {
        if cs.len() == 1 {
            return None;
        }
        let r = digits_up_to(&cs, 1, 9223372036854775808u64);
        match r {
            Some(v) => {
                if v == 9223372036854775808u64 {
                    Some(i64::MIN)
                } else {
                    Some(-(v as i64))
                }
            },
            None => None,
        }
    } else {
        match parse_bounded(s, 9223372036854775807u64) {
            Some(v) => Some(v as i64),
            None => None,
        }
    }
}

/// The octal digits of `n`, most significant first (`"0"` for zero).
pub open spec fn octal(n: nat) -> Seq<char>
    decreases n,
{
    if n < 8 {
        seq![digit_char(n)]
    } else {
        octal(n / 8).push(digit_char(n % 8))
    }
}

/// The octal form of `n`.
pub fn octal_string(n: u64) -> (s: String)
    ensures
        s@ == octal(n as nat),
    decreases n,
{
    if n < 8 {
        string_of_char(digit_of(n))
    } else {
        let mut head = octal_string(n / 8);
        push_char(&mut head, digit_of(n % 8));
        head
    }
}

/// Whether `s` begins with `prefix`.
pub open spec fn starts_with(s: Seq<char>, prefix: Seq<char>) -> bool {
    prefix.len() <= s.len() && s.subrange(0, prefix.len() as int) == prefix
}

/// Whether `s` ends with `suffix`.
pub open spec fn ends_with(s: Seq<char>, suffix: Seq<char>) -> bool {
    suffix.len() <= s.len() && s.subrange(s.len() - suffix.len(), s.len() as int) == suffix
}

/// Whether `s` begins with `prefix`.
pub fn chars_start_with(s: &Vec<char>, prefix: &Vec<char>) -> (r: bool)
    ensures
        r == starts_with(s@, prefix@),
{
    if prefix.len() > s.len() {
        return false;
    }
    let mut i: usize = 0;
    while i < prefix.len()
        invariant
            prefix@.len() <= s@.len(),
            i <= prefix@.len(),
            forall|k: int| 0 <= k < i ==> s@[k] == prefix@[k],
        decreases prefix@.len() - i,
    {
        if s[i] != prefix[i] {
            assert(s@.subrange(0, prefix@.len() as int)[i as int] != prefix@[i as int]);
            return false;
        }
        i = i + 1;
    }
    assert(s@.subrange(0, prefix@.len() as int) =~= prefix@);
    true
}

/// Whether `s` ends with `suffix`.
pub fn chars_end_with(s: &Vec<char>, suffix: &Vec<char>) -> (r: bool)
    ensures
        r == ends_with(s@, suffix@),
{
    let n = s.len();
    let m = suffix.len();
    if m > n {
        return false;
    }
    let off = n - m;
    let mut i: usize = 0;
    while i < m
        invariant
            n == s@.len(),
            m == suffix@.len(),
            m <= n,
            off == n - m,
            i <= m,
            forall|k: int| 0 <= k < i ==> s@[off + k] == suffix@[k],
        decreases m - i,
    {
        if s[off + i] != suffix[i] {
            assert(s@.subrange(off as int, n as int)[i as int] != suffix@[i as int]);
            return false;
        }
        i = i + 1;
    }
    assert(s@.subrange(off as int, n as int) =~= suffix@);
    true
}

/// Decimal digits are the characters `0` to `9`.
pub proof fn lemma_digit_char(d: nat)
    requires
        d < 10,
    ensures
        '0' <= digit_char(d) <= '9',
        digit_char(d) as u32 == 48 + d,
{
    assert(('0' as u32) == 48);
    assert(((48 + d) as char) as u32 == 48 + d);
}

/// Every character of a decimal numeral is a digit.
pub proof fn lemma_decimal_digits(n: nat)
    ensures
        forall|i: int| 0 <= i < decimal(n).len() ==> '0' <= #[trigger] decimal(n)[i] <= '9',
    decreases n,
{
    if n >= 10 {
        lemma_decimal_digits(n / 10);
        lemma_digit_char(n % 10);
        let d = decimal(n);
        assert(d == decimal(n / 10).push(digit_char(n % 10)));
        assert forall|i: int| 0 <= i < d.len() implies '0' <= #[trigger] d[i] <= '9' by {
            if i < d.len() - 1 {
                assert(d[i] == decimal(n / 10)[i]);
            }
        }
    } else {
        lemma_digit_char(n);
    }
}

/// The text `String::from_utf8_lossy` makes of bytes that are not valid
/// UTF-8 (each invalid sequence replaced by U+FFFD).
pub uninterp spec fn lossy_decoding(bytes: Seq<u8>) -> Seq<char>;

/// The text `String::from_utf8_lossy` makes of `bytes`: their decoding
/// where they are valid UTF-8.
pub open spec fn utf8_lossy(bytes: Seq<u8>) -> Seq<char> {
    if vstd::utf8::valid_utf8(bytes) {
        vstd::utf8::decode_utf8(bytes)
    } else {
        lossy_decoding(bytes)
    }
}

/// `String::from_utf8_lossy`. Trusted: valid UTF-8 comes back as the text
/// it encodes, as the documentation states; what replaces invalid
/// sequences is the text named [`lossy_decoding`], which depends on the
/// bytes alone.
#[verifier::external_body]
pub(crate) fn lossy_text(bytes: &[u8]) -> (r: String)
    ensures
        r@ == utf8_lossy(bytes@),
        !vstd::utf8::valid_utf8(bytes@) ==> r@ == lossy_decoding(bytes@),
{
    String::from_utf8_lossy(bytes).into_owned()
}

/// `s` without leading characters that are white space.
pub open spec fn trim_start(s: Seq<char>) -> Seq<char>
    decreases s.len(),
{
    if s.len() > 0 && whitespace(s[0]) {
        trim_start(s.skip(1))
    } else {
        s
    }
}

/// `s` without trailing characters that are white space.
pub open spec fn trim_end(s: Seq<char>) -> Seq<char>
    decreases s.len(),
{
    if s.len() > 0 && whitespace(s.last()) {
        trim_end(s.drop_last())
    } else {
        s
    }
}

/// `str::trim`: without white space at either end.
pub open spec fn trimmed(s: Seq<char>) -> Seq<char> {
    trim_end(trim_start(s))
}

pub fn trim_text(s: &str) -> (r: String)
    ensures
        r@ == trimmed(s@),
{
    let cs = chars_of(s);
    let n = cs.len();
    let mut lo: usize = 0;
    assert(cs@.skip(0) =~= cs@);
    while lo < n && char_is_whitespace(cs[lo])
        invariant
            lo <= n,
            n == cs@.len(),
            cs@ == s@,
            trim_start(s@) == trim_start(cs@.skip(lo as int)),
        decreases n - lo,
    {
        assert(cs@.skip(lo as int).skip(1) =~= cs@.skip(lo + 1));
        lo = lo + 1;
    }
    let ghost t = cs@.skip(lo as int);
    assert(t == trim_start(s@));
    let mut hi: usize = n;
    assert(cs@.subrange(lo as int, hi as int) =~= t);
    while hi > lo && char_is_whitespace(cs[hi - 1])
        invariant
            lo <= hi <= n,
            n == cs@.len(),
            trim_end(t) == trim_end(cs@.subrange(lo as int, hi as int)),
        decreases hi,
    {
        assert(cs@.subrange(lo as int, hi as int).drop_last() =~= cs@.subrange(lo as int, hi - 1));
        hi = hi - 1;
    }
    string_of_range(&cs, lo, hi)
}

} // verus!
