//! `tr`: translating or deleting characters, with the `[:lower:]` and
//! `[:upper:]` classes.

use vstd::prelude::*;
use crate::text::{chars_of, push_char, str_eq, chars_eq};
use crate::utf8::{lower_of, to_lowercase, to_uppercase, upper_of};

verus! {

broadcast use vstd::std_specs::vec::group_vec_axioms;

/// `a` to `z`.
pub open spec fn lower_letters() -> Seq<char> {
    Seq::new(26, |i: int| (('a' as u32) + i) as char)
}

/// `A` to `Z`.
pub open spec fn upper_letters() -> Seq<char> {
    Seq::new(26, |i: int| (('A' as u32) + i) as char)
}

/// The characters a set operand stands for.
pub open spec fn expanded(spec: Seq<char>) -> Seq<char> {
    if spec == "[:lower:]"@ {
        lower_letters()
    } else if spec == "[:upper:]"@ {
        upper_letters()
    } else {
        spec
    }
}

/// The index of the first `c` in `s`.
pub open spec fn position_of(s: Seq<char>, c: char, i: int) -> Option<int>
    decreases s.len() - i,
{
    if i < 0 || i >= s.len() {
        None
    } else if s[i] == c {
        Some(i)
    } else {
        position_of(s, c, i + 1)
    }
}

/// What `tr` makes of `ch`: case mapping between the two letter classes;
/// else the replacement at the same position (the last one where the
/// replacement is shorter); else `ch` itself.
pub open spec fn translated(ch: char, source: Seq<char>, replacement: Seq<char>) -> char {
    if source == lower_letters() && replacement == upper_letters() {
        upper_of(ch)
    } else if source == upper_letters() && replacement == lower_letters() {
        lower_of(ch)
    } else {
        match position_of(source, ch, 0) {
            Some(i) => if i < replacement.len() {
                replacement[i]
            } else if replacement.len() > 0 {
                replacement.last()
            } else {
                ch
            },
            None => ch,
        }
    }
}

fn letters(first: char) -> (r: Vec<char>)
    requires
        first == 'a' || first == 'A',
    ensures
        first == 'a' ==> r@ == lower_letters(),
        first == 'A' ==> r@ == upper_letters(),
{
    let mut v: Vec<char> = Vec::new();
    let base = first as u8;
    let mut i: u8 = 0;
    while i < 26
        invariant
            i <= 26,
            base == first as u8,
            first == 'a' || first == 'A',
            v@.len() == i,
            forall|k: int| 0 <= k < i ==> v@[k] == ((first as u32) + k) as char,
        decreases 26 - i,
    {
        let c = (base + i) as char;
        v.push(c);
        i = i + 1;
    }
    assert(first == 'a' ==> v@ =~= lower_letters());
    assert(first == 'A' ==> v@ =~= upper_letters());
    v
}

/// The characters the set operand `spec` stands for.
pub fn expand_set(spec: &str) -> (r: Vec<char>)
    ensures
        r@ == expanded(spec@),
{
    if str_eq(spec, "[:lower:]") {
        letters('a')
    } else if str_eq(spec, "[:upper:]") {
        letters('A')
    } else {
        chars_of(spec)
    }
}

/// What `tr` makes of `ch` with the given sets.
pub fn translate_char(ch: char, source: &Vec<char>, replacement: &Vec<char>) -> (r: char)
    ensures
        r == translated(ch, source@, replacement@),
{
    let lower = letters('a');
    let upper = letters('A');
    if chars_eq(source, &lower) && chars_eq(replacement, &upper) {
        return to_uppercase(ch);
    }
    if chars_eq(source, &upper) && chars_eq(replacement, &lower) {
        return to_lowercase(ch);
    }
    let mut i: usize = 0;
    while i < source.len()
        invariant
            i <= source@.len(),
            position_of(source@, ch, 0) == position_of(source@, ch, i as int),
        decreases source@.len() - i,
    {
        if source[i] == ch {
            if i < replacement.len() {
                return replacement[i];
            } else if replacement.len() > 0 {
                return replacement[replacement.len() - 1];
            } else {
                return ch;
            }
        }
        i = i + 1;
    }
    ch
}

/// What `tr` writes for `text`: with `delete`, the characters not in the
/// first set; else each character translated.
pub open spec fn tr_text(text: Seq<char>, source: Seq<char>, replacement: Seq<char>, delete: bool) -> Seq<char>
    decreases text.len(),
{
    if text.len() == 0 {
        Seq::empty()
    } else {
        let before = tr_text(text.drop_last(), source, replacement, delete);
        let c = text.last();
        if delete {
            if source.contains(c) {
                before
            } else {
                before.push(c)
            }
        } else {
            before.push(translated(c, source, replacement))
        }
    }
}

/// `tr`'s output for `text` with the set operands `set1` and, unless
/// deleting, `set2`.
pub fn tr_output(text: &str, set1: &str, set2: &str, delete: bool) -> (r: String)
    ensures
        r@ == tr_text(text@, expanded(set1@), expanded(set2@), delete),
{
    let source = expand_set(set1);
    let replacement = expand_set(set2);
    let cs = chars_of(text);
    let mut out = String::new();
    let mut i: usize = 0;
    while i < cs.len()
        invariant
            i <= cs@.len(),
            cs@ == text@,
            source@ == expanded(set1@),
            replacement@ == expanded(set2@),
            out@ == tr_text(cs@.subrange(0, i as int), source@, replacement@, delete),
        decreases cs@.len() - i,
    {
        let c = cs[i];
        assert(cs@.subrange(0, i + 1).drop_last() =~= cs@.subrange(0, i as int));
        if delete {
            let mut found = false;
            let mut j: usize = 0;
            while j < source.len()
                invariant
                    j <= source@.len(),
                    found == exists|k: int| 0 <= k < j && source@[k] == c,
                decreases source@.len() - j,
            {
                if source[j] == c {
                    found = true;
                }
                j = j + 1;
            }
            if !found {
                push_char(&mut out, c);
            }
        } else {
            let t = translate_char(c, &source, &replacement);
            push_char(&mut out, t);
        }
        i = i + 1;
    }
    assert(cs@.subrange(0, cs@.len() as int) =~= cs@);
    out
}

} // verus!
