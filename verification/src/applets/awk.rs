//! `awk`: the print-oriented programs `{print}`, `{print NR}` and
//! `{print $N}`, and the splitting of lines into fields.

use vstd::prelude::*;
use crate::regex::{char_is_whitespace, whitespace};
use crate::text::{chars_of, push_char, string_of_range, decimal_string, decimal, parse_usize, parse_unsigned, starts_with, chars_eq, str_eq};

verus! {

broadcast use vstd::std_specs::vec::group_vec_axioms;

#[derive(Debug, Clone, Copy, PartialEq, Eq, Structural)]
pub enum AwkAction {
    PrintWholeLine,
    PrintField(usize),
    PrintLineNumber,
}

/// `s` without its leading whitespace.
pub open spec fn trim_start(s: Seq<char>) -> Seq<char>
    decreases s.len(),
{
    if s.len() > 0 && whitespace(s[0]) {
        trim_start(s.skip(1))
    } else {
        s
    }
}

/// `s` without its trailing whitespace.
pub open spec fn trim_end(s: Seq<char>) -> Seq<char>
    decreases s.len(),
{
    if s.len() > 0 && whitespace(s.last()) {
        trim_end(s.drop_last())
    } else {
        s
    }
}

pub open spec fn trim(s: Seq<char>) -> Seq<char> {
    trim_end(trim_start(s))
}

/// `s` without any number of leading copies of the non-empty `p`.
pub open spec fn strip_prefixes(s: Seq<char>, p: Seq<char>) -> Seq<char>
    decreases s.len(),
{
    if p.len() > 0 && starts_with(s, p) {
        strip_prefixes(s.skip(p.len() as int), p)
    } else {
        s
    }
}

/// `s` without any number of trailing `c`.
pub open spec fn strip_trailing(s: Seq<char>, c: char) -> Seq<char>
    decreases s.len(),
{
    if s.len() > 0 && s.last() == c {
        strip_trailing(s.drop_last(), c)
    } else {
        s
    }
}

/// The action of an awk program, as far as this awk understands one.
pub open spec fn program_action(program: Seq<char>) -> Option<AwkAction> {
    let t = trim(program);
    if t == "{print}"@ {
        Some(AwkAction::PrintWholeLine)
    } else if t == "{print NR}"@ {
        Some(AwkAction::PrintLineNumber)
    } else if starts_with(t, "{print $"@) && t.len() > 0 && t.last() == '}' {
        let field = trim(strip_trailing(strip_prefixes(t, "{print $"@), '}'));
        match parse_unsigned(field, usize::MAX as nat) {
            Some(n) => Some(AwkAction::PrintField(n as usize)),
            None => None,
        }
    } else {
        None
    }
}

fn trim_chars(cs: &Vec<char>) -> (r: Vec<char>)
    ensures
        r@ == trim(cs@),
{
    let n = cs.len();
    let mut lo: usize = 0;
    assert(cs@.skip(0) =~= cs@);
    while lo < n && char_is_whitespace(cs[lo])
        invariant
            n == cs@.len(),
            lo <= n,
            trim_start(cs@) == trim_start(cs@.skip(lo as int)),
        decreases n - lo,
    {
        assert(cs@.skip(lo as int).skip(1) =~= cs@.skip(lo + 1));
        lo = lo + 1;
    }
    assert(trim_start(cs@) == cs@.skip(lo as int)) by {
        if lo < n {
            assert(cs@.skip(lo as int)[0] == cs@[lo as int]);
        }
    }
    let mut hi: usize = n;
    assert(cs@.skip(lo as int) =~= cs@.subrange(lo as int, n as int));
    while hi > lo && char_is_whitespace(cs[hi - 1])
        invariant
            n == cs@.len(),
            lo <= hi <= n,
            trim(cs@) == trim_end(cs@.subrange(lo as int, hi as int)),
        decreases hi - lo,
    {
        assert(cs@.subrange(lo as int, hi as int).drop_last() =~= cs@.subrange(lo as int, hi - 1));
        hi = hi - 1;
    }
    let s = string_of_range(cs, lo, hi);
    let r = chars_of(s.as_str());
    proof {
        assert(cs@.skip(lo as int) =~= cs@.subrange(lo as int, n as int));
    }
    r
}

fn strip_prefixes_chars(cs: &Vec<char>, p: &Vec<char>) -> (r: Vec<char>)
    requires
        p@.len() > 0,
    ensures
        r@ == strip_prefixes(cs@, p@),
{
    let mut cur = string_of_range(cs, 0, cs.len());
    let mut v = chars_of(cur.as_str());
    assert(cs@.subrange(0, cs@.len() as int) =~= cs@);
    while crate::text::chars_start_with(&v, p)
        invariant
            p@.len() > 0,
            strip_prefixes(cs@, p@) == strip_prefixes(v@, p@),
        decreases v@.len(),
    {
        let rest = string_of_range(&v, p.len(), v.len());
        v = chars_of(rest.as_str());
    }
    v
}

fn strip_trailing_chars(cs: &Vec<char>, c: char) -> (r: Vec<char>)
    ensures
        r@ == strip_trailing(cs@, c),
{
    let mut hi = cs.len();
    assert(cs@.subrange(0, cs@.len() as int) =~= cs@);
    while hi > 0 && cs[hi - 1] == c
        invariant
            hi <= cs@.len(),
            strip_trailing(cs@, c) == strip_trailing(cs@.subrange(0, hi as int), c),
        decreases hi,
    {
        assert(cs@.subrange(0, hi as int).drop_last() =~= cs@.subrange(0, hi - 1));
        hi = hi - 1;
    }
    assert(cs@.subrange(0, cs@.len() as int) =~= cs@);
    let s = string_of_range(cs, 0, hi);
    chars_of(s.as_str())
}

/// The action of the awk `program`.
pub fn parse_program(program: &str) -> (r: Option<AwkAction>)
    ensures
        r == program_action(program@),
{
    let t = trim_chars(&chars_of(program));
    let print_all = chars_of("{print}");
    let print_nr = chars_of("{print NR}");
    let print_field = chars_of("{print $");
    if chars_eq(&t, &print_all) {
        return Some(AwkAction::PrintWholeLine);
    }
    if chars_eq(&t, &print_nr) {
        return Some(AwkAction::PrintLineNumber);
    }
    if crate::text::chars_start_with(&t, &print_field) && t.len() > 0 && t[t.len() - 1] == '}' {
        proof {
            reveal_strlit("{print $");
        }
        let a = strip_prefixes_chars(&t, &print_field);
        let b = strip_trailing_chars(&a, '}');
        let c = trim_chars(&b);
        let text = string_of_range(&c, 0, c.len());
        assert(c@.subrange(0, c@.len() as int) =~= c@);
        return match parse_usize(text.as_str()) {
            Some(n) => Some(AwkAction::PrintField(n)),
            None => None,
        };
    }
    None
}

/// The words of `s`, separated by runs of whitespace.
pub open spec fn words_of(s: Seq<char>) -> Seq<Seq<char>>
    decreases s.len(),
{
    if s.len() == 0 {
        Seq::empty()
    } else {
        let w = words_of(s.drop_last());
        let c = s.last();
        if whitespace(c) {
            w
        } else if s.len() >= 2 && !whitespace(s[s.len() - 2]) && w.len() > 0 {
            w.update(w.len() - 1, w.last().push(c))
        } else {
            w.push(seq![c])
        }
    }
}

/// What the action prints for a line (without the newline after it).
pub open spec fn action_output(line: Seq<char>, line_number: nat, action: AwkAction) -> Seq<char> {
    match action {
        AwkAction::PrintWholeLine => line,
        AwkAction::PrintField(k) => {
            let index = if k == 0 { 0int } else { k - 1 };
            let words = words_of(line);
            if index < words.len() {
                words[index]
            } else {
                Seq::empty()
            }
        },
        AwkAction::PrintLineNumber => decimal(line_number),
    }
}

/// A run of characters none of which is whitespace.
pub open spec fn is_word(w: Seq<char>) -> bool {
    w.len() > 0 && forall|k: int| 0 <= k < w.len() ==> !whitespace(#[trigger] w[k])
}

proof fn lemma_words_then_word(x: Seq<char>, b: Seq<char>)
    requires
        is_word(b),
    ensures
        words_of(x + seq![' '] + b) == words_of(x).push(b),
    decreases b.len(),
{
    let s = x + seq![' '] + b;
    assert(whitespace(' '));
    if b.len() == 1 {
        assert(s.drop_last() =~= x + seq![' ']);
        assert((x + seq![' ']).drop_last() =~= x);
        assert((x + seq![' ']).last() == ' ');
        assert(s.last() == b[0]);
        assert(!whitespace(b[0]));
        assert(s[s.len() - 2] == ' ');
        assert(seq![b[0]] =~= b);
        assert(words_of(x + seq![' ']) == words_of(x));
        assert(words_of(s) == words_of(s.drop_last()).push(seq![s.last()]));
    } else {
        let u = b.drop_last();
        assert(is_word(u)) by {
            assert forall|k: int| 0 <= k < u.len() implies !whitespace(#[trigger] u[k]) by {
                assert(u[k] == b[k]);
            }
        }
        lemma_words_then_word(x, u);
        assert(s.drop_last() =~= x + seq![' '] + u);
        assert(s.last() == b[b.len() - 1]);
        assert(!whitespace(b[b.len() - 1]));
        assert(s[s.len() - 2] == b[b.len() - 2]);
        assert(!whitespace(b[b.len() - 2]));
        assert(u.push(b[b.len() - 1]) =~= b);
        let w = words_of(x).push(u);
        assert(w.last() == u);
        assert(w.update(w.len() - 1, w.last().push(s.last())) =~= words_of(x).push(b));
    }
}

proof fn lemma_one_word(a: Seq<char>)
    requires
        is_word(a),
    ensures
        words_of(a) == seq![a],
    decreases a.len(),
{
    if a.len() == 1 {
        assert(a.drop_last() =~= Seq::<char>::empty());
        assert(a.last() == a[0]);
        assert(!whitespace(a[0]));
        assert(seq![a[0]] =~= a);
        assert(words_of(a.drop_last()) == Seq::<Seq<char>>::empty());
        assert(words_of(a) == words_of(a.drop_last()).push(seq![a.last()]));
    } else {
        let u = a.drop_last();
        assert(is_word(u)) by {
            assert forall|k: int| 0 <= k < u.len() implies !whitespace(#[trigger] u[k]) by {
                assert(u[k] == a[k]);
            }
        }
        lemma_one_word(u);
        assert(a.last() == a[a.len() - 1]);
        assert(!whitespace(a[a.len() - 1]));
        assert(a[a.len() - 2] == u[u.len() - 1]);
        assert(u.push(a.last()) =~= a);
        assert(seq![u].update(0, u.push(a.last())) =~= seq![a]);
    }
}

/// `$k` prints the `k`-th word of the line, counted from 1: on a line of
/// words separated by single spaces, `$1` is the first word and `$2` the
/// second; and on any line, `$k` for `1 <= k <=` the number of words is the
/// word at position `k - 1` of its words.
pub proof fn lemma_print_field(a: Seq<char>, b: Seq<char>, line: Seq<char>, k: usize, n: nat)
    requires
        is_word(a),
        is_word(b),
    ensures
        action_output(a + seq![' '] + b, n, AwkAction::PrintField(1)) == a,
        action_output(a + seq![' '] + b, n, AwkAction::PrintField(2)) == b,
        action_output(a + seq![' '] + b, n, AwkAction::PrintField(3)) == Seq::<char>::empty(),
        1 <= k <= words_of(line).len() ==> action_output(line, n, AwkAction::PrintField(k)) == words_of(line)[k - 1],
{
    lemma_one_word(a);
    lemma_words_then_word(a, b);
    assert(words_of(a + seq![' '] + b) =~= seq![a, b]);
}

/// The words of a line, separated by whitespace.
pub fn split_words(line: &Vec<char>) -> (r: Vec<Vec<char>>)
    ensures
        r@.len() == words_of(line@).len(),
        forall|i: int| 0 <= i < r@.len() ==> #[trigger] r@[i]@ == words_of(line@)[i],
{
    let mut words: Vec<Vec<char>> = Vec::new();
    let mut i: usize = 0;
    while i < line.len()
        invariant
            i <= line@.len(),
            words@.len() == words_of(line@.subrange(0, i as int)).len(),
            forall|k: int| 0 <= k < words@.len() ==> #[trigger] words@[k]@ == words_of(line@.subrange(0, i as int))[k],
        decreases line@.len() - i,
    {
        let c = line[i];
        let ghost pre = line@.subrange(0, i as int);
        let ghost next = line@.subrange(0, i + 1);
        assert(next.drop_last() =~= pre);
        assert(next.last() == c);
        if char_is_whitespace(c) {
        } else if i >= 1 && !char_is_whitespace(line[i - 1]) && words.len() > 0 {
            assert(next[next.len() - 2] == line@[i - 1]);
            let last = words.len() - 1;
            let mut w = words.pop().unwrap();
            w.push(c);
            words.push(w);
            assert forall|k: int| 0 <= k < words@.len() implies #[trigger] words@[k]@ == words_of(next)[k] by {
                if k < last {
                }
            }
        } else {
            if i >= 1 {
                assert(next[next.len() - 2] == line@[i - 1]);
            }
            let mut w: Vec<char> = Vec::new();
            w.push(c);
            assert(w@ =~= seq![c]);
            words.push(w);
        }
        i = i + 1;
    }
    assert(line@.subrange(0, line@.len() as int) =~= line@);
    words
}

/// The line that `action` prints for `line`, the `line_number`-th.
pub fn execute_action(line: &str, line_number: usize, action: &AwkAction) -> (r: String)
    ensures
        r@ == action_output(line@, line_number as nat, *action),
{
    match action {
        AwkAction::PrintWholeLine => String::from_str(line),
        AwkAction::PrintField(field_index) => {
            let index: usize = if *field_index == 0 {
                0
            } else {
                *field_index - 1
            };
            let cs = chars_of(line);
            let words = split_words(&cs);
            if index < words.len() {
                let w = &words[index];
                assert(w@.subrange(0, w@.len() as int) =~= w@);
                string_of_range(w, 0, w.len())
            } else {
                String::new()
            }
        },
        AwkAction::PrintLineNumber => decimal_string(line_number as u64),
    }
}

} // verus!
