//! Small decisions of the file applets: `chmod` modes, `chown` owners,
//! `basename` and `dirname`, `find -name` and `od` lines.

use vstd::prelude::*;
use crate::args::{first_char_index, first_index};
use crate::path::{file_name_of, parent_of, path_file_name};
use crate::text::{
    chars_end_with, chars_of, concat_str, ends_with, octal, octal_string, pad_left, pad_left_string,
    parse_u32, parse_unsigned, push_char, starts_with, chars_start_with, string_of_range, chars_eq,
};

verus! {

broadcast use vstd::std_specs::vec::group_vec_axioms;

/// The value of the octal digits of `s`.
pub open spec fn octal_value_of(s: Seq<char>) -> nat
    decreases s.len(),
{
    if s.len() == 0 {
        0
    } else {
        octal_value_of(s.drop_last()) * 8 + ((s.last() as int) - ('0' as int)) as nat
    }
}

/// A numeric mode for `chmod`: three or more octal digits whose value fits
/// in 32 bits.
pub open spec fn chmod_mode(s: Seq<char>) -> Option<u32> {
    if s.len() >= 3 && (forall|i: int| 0 <= i < s.len() ==> '0' <= #[trigger] s[i] && s[i] <= '7') && octal_value_of(
        s,
    ) <= u32::MAX {
        Some(octal_value_of(s) as u32)
    } else {
        None
    }
}

/// The numeric mode that `chmod` reads from `s`.
pub fn parse_mode(s: &str) -> (r: Option<u32>)
    ensures
        r == chmod_mode(s@),
{
    let cs = chars_of(s);
    if cs.len() < 3 {
        return None;
    }
    let mut value: u64 = 0;
    let mut i: usize = 0;
    while i < cs.len()
        invariant
            cs@ == s@,
            i <= cs@.len(),
            forall|k: int| 0 <= k < i ==> '0' <= #[trigger] cs@[k] && cs@[k] <= '7',
            value == octal_value_of(cs@.subrange(0, i as int)),
            value <= u32::MAX,
        decreases cs@.len() - i,
    {
        let c = cs[i];
        assert(cs@.subrange(0, i + 1).drop_last() =~= cs@.subrange(0, i as int));
        if !('0' <= c && c <= '7') {
            return None;
        }
        let d = (c as u32 - 48) as u64;
        let next = value * 8 + d;
        if next > u32::MAX as u64 {
            proof {
                lemma_octal_prefix(cs@, i + 1);
            }
            return None;
        }
        value = next;
        i = i + 1;
    }
    assert(cs@.subrange(0, cs@.len() as int) =~= cs@);
    Some(value as u32)
}

/// The value of all-octal text is at least that of any of its prefixes.
proof fn lemma_octal_prefix(s: Seq<char>, n: int)
    requires
        0 <= n <= s.len(),
    ensures
        (forall|i: int| 0 <= i < s.len() ==> '0' <= #[trigger] s[i] && s[i] <= '7') ==> octal_value_of(s)
            >= octal_value_of(s.subrange(0, n)),
    decreases s.len() - n,
{
    if n < s.len() {
        lemma_octal_prefix(s, n + 1);
        assert(s.subrange(0, n + 1).drop_last() =~= s.subrange(0, n));
    } else {
        assert(s.subrange(0, n) =~= s);
    }
}

/// A user or group id: absent where the text is empty or no number.
pub open spec fn id_part(s: Seq<char>) -> Option<u32> {
    if s.len() == 0 {
        None
    } else {
        match parse_unsigned(s, u32::MAX as nat) {
            Some(v) => Some(v as u32),
            None => None,
        }
    }
}

/// The owner and group that `chown` reads from `owner[:group]`.
pub open spec fn owner_spec(s: Seq<char>) -> (Option<u32>, Option<u32>) {
    match first_index(s, ':', 0) {
        Some(c) => (id_part(s.subrange(0, c)), id_part(s.subrange(c + 1, s.len() as int))),
        None => (
            match parse_unsigned(s, u32::MAX as nat) {
                Some(v) => Some(v as u32),
                None => None,
            },
            None,
        ),
    }
}

fn parse_id(s: &str) -> (r: Option<u32>)
    ensures
        r == id_part(s@),
{
    let cs = chars_of(s);
    if cs.len() == 0 {
        return None;
    }
    parse_u32(s)
}

/// The owner and group ids that `chown` reads from `spec`.
pub fn parse_owner_spec(spec: &str) -> (r: (Option<u32>, Option<u32>))
    ensures
        r == owner_spec(spec@),
{
    let cs = chars_of(spec);
    let n = cs.len();
    match first_char_index(&cs, ':', 0) {
        Some(c) => {
            let uid_part = string_of_range(&cs, 0, c);
            let gid_part = string_of_range(&cs, c + 1, n);
            (parse_id(uid_part.as_str()), parse_id(gid_part.as_str()))
        },
        None => (parse_u32(spec), None),
    }
}

/// The name `basename` prints: the final component (the whole path where
/// there is none), without `suffix` where it ends with it and is more.
pub open spec fn basename_text(path: Seq<char>, suffix: Option<Seq<char>>) -> Seq<char> {
    let name = match file_name_of(path) {
        Some(n) => n,
        None => path,
    };
    match suffix {
        Some(suf) => if ends_with(name, suf) && name != suf {
            name.subrange(0, name.len() - suf.len())
        } else {
            name
        },
        None => name,
    }
}

pub fn basename_of(path: &str, suffix: Option<&str>) -> (r: String)
    ensures
        r@ == basename_text(
            path@,
            match suffix {
                Some(s) => Some(s@),
                None => None,
            },
        ),
{
    let name = match path_file_name(path) {
        Some(n) => chars_of(n),
        None => chars_of(path),
    };
    match suffix {
        Some(suf) => {
            let sc = chars_of(suf);
            if chars_end_with(&name, &sc) && !chars_eq(&name, &sc) {
                string_of_range(&name, 0, name.len() - sc.len())
            } else {
                string_of_range(&name, 0, name.len())
            }
        },
        None => string_of_range(&name, 0, name.len()),
    }
}

/// The directory `dirname` prints: the parent, or `.` where there is none
/// or it is empty.
pub open spec fn dirname_text(path: Seq<char>) -> Seq<char> {
    match parent_of(path) {
        Some(d) => if d.len() == 0 {
            "."@
        } else {
            d
        },
        None => "."@,
    }
}

pub fn dirname_of(path: &str) -> (r: String)
    ensures
        r@ == dirname_text(path@),
{
    let d = crate::path::dir_name(path);
    if d.is_empty() {
        String::from_str(".")
    } else {
        String::from_str(d)
    }
}

/// Whether `find -name pattern` selects `candidate`: `*` selects all, a
/// leading `*` matches the end, a trailing one the beginning, else the whole.
pub open spec fn name_matches(candidate: Seq<char>, pattern: Seq<char>) -> bool {
    if pattern == "*"@ {
        true
    } else if pattern.len() > 0 && pattern[0] == '*' {
        ends_with(candidate, pattern.skip(1))
    } else if pattern.len() > 0 && pattern.last() == '*' {
        starts_with(candidate, pattern.drop_last())
    } else {
        candidate == pattern
    }
}

pub fn matches_name(candidate: &str, pattern: &str) -> (r: bool)
    ensures
        r == name_matches(candidate@, pattern@),
{
    let c = chars_of(candidate);
    let p = chars_of(pattern);
    proof {
        reveal_strlit("*");
    }
    if p.len() == 1 && p[0] == '*' {
        assert(p@ =~= "*"@);
        return true;
    }
    assert(p@ != "*"@);
    if p.len() > 0 && p[0] == '*' {
        let rest = string_of_range(&p, 1, p.len());
        let rc = chars_of(rest.as_str());
        assert(rc@ =~= p@.skip(1));
        return chars_end_with(&c, &rc);
    }
    if p.len() > 0 && p[p.len() - 1] == '*' {
        let rest = string_of_range(&p, 0, p.len() - 1);
        let rc = chars_of(rest.as_str());
        assert(rc@ =~= p@.drop_last());
        return chars_start_with(&c, &rc);
    }
    chars_eq(&c, &p)
}

/// One line of `od`: the address in seven octal digits, then each byte in
/// three, each followed by a space.
pub open spec fn od_line_text(address: nat, chunk: Seq<u8>) -> Seq<char>
    decreases chunk.len(),
{
    if chunk.len() == 0 {
        pad_left(octal(address), 7, '0') + seq![' ']
    } else {
        od_line_text(address, chunk.drop_last()) + pad_left(octal(chunk.last() as nat), 3, '0') + seq![' ']
    }
}

pub fn od_line(address: u64, chunk: &[u8]) -> (r: String)
    ensures
        r@ == od_line_text(address as nat, chunk@),
{
    let head = octal_string(address);
    let mut out = pad_left_string(head.as_str(), 7, '0');
    push_char(&mut out, ' ');
    let mut i: usize = 0;
    while i < chunk.len()
        invariant
            i <= chunk@.len(),
            out@ == od_line_text(address as nat, chunk@.subrange(0, i as int)),
        decreases chunk@.len() - i,
    {
        assert(chunk@.subrange(0, i + 1).drop_last() =~= chunk@.subrange(0, i as int));
        let digits = octal_string(chunk[i] as u64);
        let padded = pad_left_string(digits.as_str(), 3, '0');
        out.append(padded.as_str());
        push_char(&mut out, ' ');
        i = i + 1;
    }
    assert(chunk@.subrange(0, chunk@.len() as int) =~= chunk@);
    out
}

} // verus!
