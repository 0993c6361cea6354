//! A forgiving UTF-8 decoder, a validator, a character counter and case
//! mapping with the Turkish dotted and dotless `i` in mind.

use vstd::prelude::*;

verus! {

/// What `char::from_u32` gives: the character with that code point, where
/// the value is a Unicode scalar value.
pub open spec fn char_of(v: u32) -> Option<char> {
    if vstd::utf8::is_scalar(v) {
        Some(v as char)
    } else {
        None
    }
}

/// `char::from_u32`.
/// Trusted: `Some` exactly for the Unicode scalar values (`0..=0xD7FF` and
/// `0xE000..=0x10FFFF`), holding the character with that code point.
#[verifier::external_body]
fn char_from_u32(v: u32) -> (r: Option<char>)
    ensures
        r == char_of(v),
{
    char::from_u32(v)
}

/// The number of bytes that the decoder takes for a sequence whose first
/// byte is `first`.
pub open spec fn width_of(first: u8) -> int {
    if first < 0x80 {
        1
    } else if first < 0xE0 {
        2
    } else if first < 0xF0 {
        3
    } else {
        4
    }
}

/// The code point that the decoder assembles from the bytes at `pos`, taking
/// `width_of(b[pos])` of them.
pub open spec fn code_point_at(b: Seq<u8>, pos: int) -> u32 {
    let first = b[pos];
    if first < 0x80 {
        first as u32
    } else if first < 0xE0 {
        ((first & 0x1F) as u32) << 6u32 | ((b[pos + 1] & 0x3F) as u32)
    } else if first < 0xF0 {
        ((first & 0x0F) as u32) << 12u32 | ((b[pos + 1] & 0x3F) as u32) << 6u32 | ((b[pos + 2]
            & 0x3F) as u32)
    } else {
        ((first & 0x07) as u32) << 18u32 | ((b[pos + 1] & 0x3F) as u32) << 12u32 | ((b[pos + 2]
            & 0x3F) as u32) << 6u32 | ((b[pos + 3] & 0x3F) as u32)
    }
}

/// One step of the decoder at `pos`: the character it yields and where it
/// stands afterwards. A sequence cut short by the end of the input yields
/// U+FFFD and ends the input; so does a code point that is no character.
pub open spec fn decode_step(b: Seq<u8>, pos: int) -> (Option<char>, int) {
    if pos >= b.len() {
        (None, pos)
    } else if pos + width_of(b[pos]) > b.len() {
        (Some('\u{FFFD}'), b.len() as int)
    } else {
        match char_of(code_point_at(b, pos)) {
            Some(c) => (Some(c), pos + width_of(b[pos])),
            None => (Some('\u{FFFD}'), pos + width_of(b[pos])),
        }
    }
}

/// The characters the decoder yields from `pos` to the end.
pub open spec fn decode_from(b: Seq<u8>, pos: int) -> Seq<char>
    decreases b.len() - pos,
{
    if pos < 0 || pos >= b.len() {
        Seq::empty()
    } else {
        let (c, next) = decode_step(b, pos);
        if next <= pos {
            Seq::empty()
        } else {
            seq![c->0] + decode_from(b, next)
        }
    }
}

/// Decodes characters one at a time from a byte slice.
pub struct Utf8Chars<'a> {
    bytes: &'a [u8],
    pos: usize,
}

impl<'a> Utf8Chars<'a> {
    /// The bytes being decoded.
    pub closed spec fn spec_bytes(&self) -> Seq<u8> {
        self.bytes@
    }

    /// The index of the next byte to decode.
    pub closed spec fn spec_pos(&self) -> int {
        self.pos as int
    }

    pub closed spec fn wf(&self) -> bool {
        self.pos <= self.bytes@.len()
    }

    pub fn new(input: &'a [u8]) -> (r: Self)
        ensures
            r.wf(),
            r.spec_bytes() == input@,
            r.spec_pos() == 0,
    {
        Utf8Chars { bytes: input, pos: 0 }
    }

    /// The next character, or `None` at the end of the input.
    pub fn next_char(&mut self) -> (r: Option<char>)
        requires
            old(self).wf(),
        ensures
            final(self).wf(),
            final(self).spec_bytes() == old(self).spec_bytes(),
            (r, final(self).spec_pos()) == decode_step(old(self).spec_bytes(), old(self).spec_pos()),
    {
        let len = self.bytes.len();
        if self.pos >= len {
            return None;
        }
        let pos = self.pos;
        let first = self.bytes[pos];
        let width: usize = if first < 0x80 {
            1
        } else if first < 0xE0 {
            2
        } else if first < 0xF0 {
            3
        } else {
            4
        };
        if len - pos < width {
            self.pos = len;
            return Some('\u{FFFD}');
        }
        let cp: u32 = if first < 0x80 {
            first as u32
        } else if first < 0xE0 {
            ((first & 0x1F) as u32) << 6u32 | ((self.bytes[pos + 1] & 0x3F) as u32)
        } else if first < 0xF0 {
            ((first & 0x0F) as u32) << 12u32 | ((self.bytes[pos + 1] & 0x3F) as u32) << 6u32
                | ((self.bytes[pos + 2] & 0x3F) as u32)
        } else {
            ((first & 0x07) as u32) << 18u32 | ((self.bytes[pos + 1] & 0x3F) as u32) << 12u32
                | ((self.bytes[pos + 2] & 0x3F) as u32) << 6u32 | ((self.bytes[pos + 3] & 0x3F)
                as u32)
        };
        self.pos = pos + width;
        match char_from_u32(cp) {
            Some(c) => Some(c),
            None => Some('\u{FFFD}'),
        }
    }

    /// The number of bytes not yet decoded.
    pub fn remaining(&self) -> (r: usize)
        ensures
            r == if self.spec_pos() <= self.spec_bytes().len() {
                self.spec_bytes().len() - self.spec_pos()
            } else {
                0
            },
    {
        if self.pos <= self.bytes.len() {
            self.bytes.len() - self.pos
        } else {
            0
        }
    }
}

/// The length that a sequence whose first byte is `first` must have, or
/// `None` where `first` cannot begin one.
pub open spec fn expected_len(first: u8) -> Option<int> {
    if first < 0x80 {
        Some(1)
    } else if first < 0xC0 {
        None
    } else if first < 0xE0 {
        Some(2)
    } else if first < 0xF0 {
        Some(3)
    } else if first < 0xF8 {
        Some(4)
    } else {
        None
    }
}

/// Whether `byte` has the form `10xxxxxx`.
pub open spec fn is_continuation(byte: u8) -> bool {
    byte & 0xC0 == 0x80
}

/// The outcome of checking the bytes from `pos` on: `Ok` when every sequence
/// has a valid first byte, is complete and continues with continuation
/// bytes; else the index at which the first faulty sequence begins.
pub open spec fn validate_from(b: Seq<u8>, pos: int) -> Result<(), int>
    decreases b.len() - pos,
{
    if pos < 0 || pos >= b.len() {
        Ok(())
    } else {
        match expected_len(b[pos]) {
            None => Err(pos),
            Some(n) => {
                if pos + n > b.len() {
                    Err(pos)
                } else if exists|i: int| 1 <= i < n && !is_continuation(#[trigger] b[pos + i]) {
                    Err(pos)
                } else {
                    validate_from(b, pos + n)
                }
            },
        }
    }
}

/// Checks that `input` is made of well-formed UTF-8 sequences; on failure,
/// the index at which the first faulty sequence begins.
pub fn validate(input: &[u8]) -> (r: Result<(), usize>)
    ensures
        match validate_from(input@, 0) {
            Ok(()) => r is Ok,
            Err(p) => r matches Err(q) && q == p,
        },
{
    let n = input.len();
    let mut pos: usize = 0;
    while pos < n
        invariant
            n == input@.len(),
            pos <= n,
            validate_from(input@, 0) == validate_from(input@, pos as int),
        decreases n - pos,
    {
        let first = input[pos];
        let expected: usize = if first < 0x80 {
            1
        } else if first < 0xC0 {
            return Err(pos);
        } else if first < 0xE0 {
            2
        } else if first < 0xF0 {
            3
        } else if first < 0xF8 {
            4
        } else {
            return Err(pos);
        };
        assert(expected_len(first) == Some(expected as int));
        if n - pos < expected {
            return Err(pos);
        }
        let mut i: usize = 1;
        while i < expected
            invariant
                n == input@.len(),
                1 <= i <= expected <= 4,
                pos + expected <= n,
                expected_len(input@[pos as int]) == Some(expected as int),
                validate_from(input@, 0) == validate_from(input@, pos as int),
                forall|k: int| 1 <= k < i ==> is_continuation(#[trigger] input@[pos + k]),
            decreases expected - i,
        {
            if input[pos + i] & 0xC0 != 0x80 {
                assert(!is_continuation(input@[pos + i]));
                return Err(pos);
            }
            i = i + 1;
        }
        pos = pos + expected;
    }
    Ok(())
}

/// The number of sequences that the decoder steps over from `pos` on.
pub open spec fn count_from(b: Seq<u8>, pos: int) -> nat
    decreases b.len() - pos,
{
    if pos < 0 || pos >= b.len() {
        0
    } else if pos + width_of(b[pos]) >= b.len() {
        1
    } else {
        1 + count_from(b, pos + width_of(b[pos]))
    }
}

/// The number of characters in `input`, counting one per sequence by the
/// width that its first byte announces.
pub fn char_count(input: &[u8]) -> (r: usize)
    ensures
        r == count_from(input@, 0),
{
    let mut count: usize = 0;
    let mut pos: usize = 0;
    while pos < input.len()
        invariant
            pos <= input@.len(),
            count <= pos,
            count + count_from(input@, pos as int) == count_from(input@, 0),
        decreases input@.len() - pos,
    {
        let first = input[pos];
        let width: usize = if first < 0x80 {
            1
        } else if first < 0xE0 {
            2
        } else if first < 0xF0 {
            3
        } else {
            4
        };
        count = count + 1;
        if input.len() - pos <= width {
            pos = input.len();
        } else {
            pos = pos + width;
        }
    }
    count
}

/// Counting agrees with decoding: [`char_count`] is the number of characters
/// that [`Utf8Chars`] yields before it reports the end.
pub proof fn lemma_count_matches_decoding(b: Seq<u8>, pos: int)
    requires
        0 <= pos,
    ensures
        count_from(b, pos) == decode_from(b, pos).len(),
    decreases b.len() - pos,
{
    if pos < b.len() {
        let (c, next) = decode_step(b, pos);
        if pos + width_of(b[pos]) >= b.len() {
            assert(decode_from(b, next) == Seq::<char>::empty());
        } else {
            lemma_count_matches_decoding(b, next);
        }
    }
}

/// On a well-formed sequence at `pos`, one decoding step yields the scalar
/// that UTF-8 encodes there and moves past exactly its bytes.
pub proof fn lemma_decode_step_valid(b: Seq<u8>, pos: int)
    requires
        0 <= pos < b.len(),
        vstd::utf8::valid_first_scalar(b.subrange(pos, b.len() as int)),
    ensures
        ({
            let t = b.subrange(pos, b.len() as int);
            decode_step(b, pos) == (
                Some(vstd::utf8::decode_first_scalar(t) as char),
                pos + vstd::utf8::length_of_first_scalar(t),
            )
        }),
{
    let t = b.subrange(pos, b.len() as int);
    let b0 = b[pos];
    assert(t[0] == b0);
    let cp = vstd::utf8::decode_first_codepoint(t);
    if b0 < 0x80 {
        assert(b0 < 0x80 ==> (b0 & 0x7F) as u32 == b0 as u32 && b0 as u32 <= 0x7F) by (bit_vector);
        assert(code_point_at(b, pos) == cp);
        assert(vstd::utf8::is_scalar(cp));
    } else if b0 < 0xE0 {
        let b1 = b[pos + 1];
        assert(t[1] == b1);
        assert(((b0 & 0x1F) as u32) << 6u32 | ((b1 & 0x3F) as u32) <= 0x7FF) by (bit_vector);
        assert(code_point_at(b, pos) == cp);
        assert(vstd::utf8::is_scalar(cp));
    } else if b0 < 0xF0 {
        let b1 = b[pos + 1];
        let b2 = b[pos + 2];
        assert(t[1] == b1 && t[2] == b2);
        assert(((b0 & 0x0F) as u32) << 12u32 | ((b1 & 0x3F) as u32) << 6u32 | ((b2 & 0x3F) as u32) <= 0xFFFF)
            by (bit_vector);
        assert(code_point_at(b, pos) == cp);
        assert(vstd::utf8::is_scalar(cp));
    } else {
        let b1 = b[pos + 1];
        let b2 = b[pos + 2];
        let b3 = b[pos + 3];
        assert(t[1] == b1 && t[2] == b2 && t[3] == b3);
        assert(code_point_at(b, pos) == cp);
        assert(vstd::utf8::is_scalar(cp));
    }
}

/// Decoding well-formed UTF-8 from `pos` gives the characters that it
/// encodes.
proof fn lemma_decode_from_valid(b: Seq<u8>, pos: int)
    requires
        0 <= pos <= b.len(),
        vstd::utf8::valid_utf8(b.subrange(pos, b.len() as int)),
    ensures
        decode_from(b, pos) == vstd::utf8::decode_utf8(b.subrange(pos, b.len() as int)),
    decreases b.len() - pos,
{
    let t = b.subrange(pos, b.len() as int);
    if pos == b.len() {
        assert(t.len() == 0);
    } else {
        lemma_decode_step_valid(b, pos);
        let n = vstd::utf8::length_of_first_scalar(t);
        assert(vstd::utf8::pop_first_scalar(t) =~= b.subrange(pos + n, b.len() as int));
        lemma_decode_from_valid(b, pos + n);
    }
}

/// Decoding the bytes of a string gives the string's characters in order:
/// each step yields the next character and leaves the bytes after its UTF-8
/// encoding.
pub proof fn lemma_decodes_string(s: Seq<char>)
    ensures
        decode_from(vstd::utf8::encode_utf8(s), 0) == s,
{
    let b = vstd::utf8::encode_utf8(s);
    vstd::utf8::encode_utf8_valid_utf8(s);
    vstd::utf8::encode_utf8_decode_utf8(s);
    assert(b.subrange(0, b.len() as int) =~= b);
    lemma_decode_from_valid(b, 0);
}

/// Encoding two strings one after the other is encoding them together.
proof fn lemma_encode_concat(a: Seq<char>, c: Seq<char>)
    ensures
        vstd::utf8::encode_utf8(a + c) == vstd::utf8::encode_utf8(a) + vstd::utf8::encode_utf8(c),
    decreases a.len(),
{
    if a.len() == 0 {
        assert(a + c =~= c);
        assert(Seq::<u8>::empty() + vstd::utf8::encode_utf8(c) =~= vstd::utf8::encode_utf8(c));
    } else {
        assert((a + c).drop_first() =~= a.drop_first() + c);
        assert((a + c)[0] == a[0]);
        lemma_encode_concat(a.drop_first(), c);
        let e0 = vstd::utf8::encode_scalar(a[0] as u32);
        assert(e0 + (vstd::utf8::encode_utf8(a.drop_first()) + vstd::utf8::encode_utf8(c)) =~= (e0
            + vstd::utf8::encode_utf8(a.drop_first())) + vstd::utf8::encode_utf8(c));
    }
}

/// Decoding a string's bytes one step at a time: after `k` characters the
/// decoder stands at the end of their encoding (so the bytes remaining are
/// the string's length less the UTF-8 lengths of those characters); the
/// next step yields character `k` and moves past its encoding; once every
/// character is read, each further step yields nothing and stays put.
pub proof fn lemma_string_steps(s: Seq<char>, k: int)
    requires
        0 <= k <= s.len(),
    ensures
        ({
            let b = vstd::utf8::encode_utf8(s);
            let pos = vstd::utf8::encode_utf8(s.take(k)).len() as int;
            &&& pos <= b.len()
            &&& b.len() - pos == vstd::utf8::encode_utf8(s.skip(k)).len()
            &&& k < s.len() ==> decode_step(b, pos) == (
                Some(s[k]),
                vstd::utf8::encode_utf8(s.take(k + 1)).len() as int,
            )
            &&& k == s.len() ==> pos == b.len() && decode_step(b, pos) == (None::<char>, pos)
        }),
{
    let b = vstd::utf8::encode_utf8(s);
    let pre = vstd::utf8::encode_utf8(s.take(k));
    let rest = vstd::utf8::encode_utf8(s.skip(k));
    assert(s.take(k) + s.skip(k) =~= s);
    lemma_encode_concat(s.take(k), s.skip(k));
    let pos = pre.len() as int;
    if k < s.len() {
        let tail = s.skip(k);
        assert(b.subrange(pos, b.len() as int) =~= rest);
        vstd::utf8::encode_utf8_first_scalar(tail);
        assert(tail[0] == s[k]);
        vstd::utf8::char_u32_cast(s[k], s[k] as u32);
        lemma_decode_step_valid(b, pos);
        assert(s.take(k + 1) =~= s.take(k) + seq![s[k]]);
        lemma_encode_concat(s.take(k), seq![s[k]]);
        let one = seq![s[k]];
        assert(one.drop_first() =~= Seq::<char>::empty());
        assert(one[0] == s[k]);
        assert(vstd::utf8::encode_utf8(one.drop_first()).len() == 0);
        assert(vstd::utf8::encode_utf8(one) == vstd::utf8::encode_scalar(s[k] as u32) + vstd::utf8::encode_utf8(
            one.drop_first(),
        ));
        assert(vstd::utf8::encode_utf8(one) =~= vstd::utf8::encode_scalar(s[k] as u32));
    } else {
        assert(s.skip(k) =~= Seq::<char>::empty());
    }
}

/// The count of a string's bytes is the number of its characters.
pub proof fn lemma_counts_string(s: Seq<char>)
    ensures
        count_from(vstd::utf8::encode_utf8(s), 0) == s.len(),
{
    lemma_decodes_string(s);
    lemma_count_matches_decoding(vstd::utf8::encode_utf8(s), 0);
}

/// The validator accepts well-formed UTF-8 from `pos` on.
proof fn lemma_validate_from_valid(b: Seq<u8>, pos: int)
    requires
        0 <= pos <= b.len(),
        vstd::utf8::valid_utf8(b.subrange(pos, b.len() as int)),
    ensures
        validate_from(b, pos) is Ok,
    decreases b.len() - pos,
{
    let t = b.subrange(pos, b.len() as int);
    if pos < b.len() {
        let n = vstd::utf8::length_of_first_scalar(t);
        let b0 = b[pos];
        assert(t[0] == b0);
        assert(expected_len(b0) == Some(n));
        assert forall|i: int| 1 <= i < n implies is_continuation(#[trigger] b[pos + i]) by {
            assert(t[i] == b[pos + i]);
            let x = b[pos + i];
            assert(0x80 <= x <= 0xbf ==> x & 0xC0 == 0x80) by (bit_vector);
        }
        assert(vstd::utf8::pop_first_scalar(t) =~= b.subrange(pos + n, b.len() as int));
        lemma_validate_from_valid(b, pos + n);
    }
}

/// The validator accepts the bytes of every string.
pub proof fn lemma_validates_string(s: Seq<char>)
    ensures
        validate_from(vstd::utf8::encode_utf8(s), 0) is Ok,
{
    let b = vstd::utf8::encode_utf8(s);
    vstd::utf8::encode_utf8_valid_utf8(s);
    assert(b.subrange(0, b.len() as int) =~= b);
    lemma_validate_from_valid(b, 0);
}

/// Where the validator stops at `p`, the bytes before `p` pass it, so `p`
/// is where the first faulty sequence begins.
pub proof fn lemma_validate_error_prefix(b: Seq<u8>, q: int, p: int)
    requires
        0 <= q,
        validate_from(b, q) == Err::<(), int>(p),
    ensures
        q <= p < b.len(),
        validate_from(b.subrange(0, p), q) is Ok,
    decreases b.len() - q,
{
    let pre = b.subrange(0, p);
    match expected_len(b[q]) {
        None => {},
        Some(n) => {
            if q + n > b.len() {
            } else if exists|i: int| 1 <= i < n && !is_continuation(#[trigger] b[q + i]) {
            } else {
                lemma_validate_error_prefix(b, q + n, p);
                assert(pre[q] == b[q]);
                assert forall|i: int| 1 <= i < n implies is_continuation(#[trigger] pre[q + i]) by {
                    assert(pre[q + i] == b[q + i]);
                }
            }
        },
    }
}

/// The uppercase form that Unicode gives `c` (its first character).
pub uninterp spec fn unicode_upper(c: char) -> char;

/// The lowercase form that Unicode gives `c` (its first character).
pub uninterp spec fn unicode_lower(c: char) -> char;

/// `c.to_uppercase().next().unwrap_or(c)`.
/// Trusted: the result is the one named by [`unicode_upper`]; on ASCII, as
/// std documents, a lowercase letter becomes its capital and every other
/// character stays as it is.
#[verifier::external_body]
fn first_upper(c: char) -> (r: char)
    ensures
        r == unicode_upper(c),
        (c as u32) < 0x80 ==> r == (if 'a' <= c <= 'z' { ((c as u32) - 32) as char } else { c }),
{
    c.to_uppercase().next().unwrap_or(c)
}

/// `c.to_lowercase().next().unwrap_or(c)`.
/// Trusted: the result is the one named by [`unicode_lower`]; on ASCII, as
/// std documents, a capital letter becomes its lowercase and every other
/// character stays as it is.
#[verifier::external_body]
fn first_lower(c: char) -> (r: char)
    ensures
        r == unicode_lower(c),
        (c as u32) < 0x80 ==> r == (if 'A' <= c <= 'Z' { ((c as u32) + 32) as char } else { c }),
{
    c.to_lowercase().next().unwrap_or(c)
}

/// The uppercase of `c`: ASCII letters by their code, the dotless `ı` to
/// `I`, everything else as Unicode maps it.
pub open spec fn upper_of(c: char) -> char {
    if 'a' <= c <= 'z' {
        ((c as u32) - 32) as char
    } else if c == '\u{131}' {
        'I'
    } else {
        unicode_upper(c)
    }
}

/// The lowercase of `c`: ASCII letters by their code, the dotted `İ` to `i`,
/// everything else as Unicode maps it.
pub open spec fn lower_of(c: char) -> char {
    if 'A' <= c <= 'Z' {
        ((c as u32) + 32) as char
    } else if c == '\u{130}' {
        'i'
    } else {
        unicode_lower(c)
    }
}

pub fn to_uppercase(c: char) -> (r: char)
    ensures
        r == upper_of(c),
{
    if 'a' <= c && c <= 'z' {
        return ascii_shift(c, false);
    }
    if c == '\u{131}' {
        'I'
    } else {
        first_upper(c)
    }
}

pub fn to_lowercase(c: char) -> (r: char)
    ensures
        r == lower_of(c),
{
    if 'A' <= c && c <= 'Z' {
        return ascii_shift(c, true);
    }
    if c == '\u{130}' {
        'i'
    } else {
        first_lower(c)
    }
}

/// Moves an ASCII letter to the other case: 32 code points up when `down`
/// is set (`A` to `a`), else 32 down.
fn ascii_shift(c: char, down: bool) -> (r: char)
    requires
        if down { 'A' <= c <= 'Z' } else { 'a' <= c <= 'z' },
    ensures
        r == if down { ((c as u32) + 32) as char } else { ((c as u32) - 32) as char },
{
    let v = c as u8;
    let w: u8 = if down {
        v + 32
    } else {
        v - 32
    };
    w as char
}

} // verus!
