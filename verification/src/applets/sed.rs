//! `sed`: the `s/pattern/replacement/flags` command on fixed text.

use vstd::prelude::*;
use crate::locale::{occurs_at};
use crate::text::{chars_of, lemma_split_then, lemma_split_whole, push_char, split_chars, split_on, string_of_range};

verus! {

broadcast use vstd::std_specs::vec::group_vec_axioms;

#[derive(Debug, Clone)]
pub struct SubstituteCommand {
    pub pattern: String,
    pub replacement: String,
    pub global: bool,
}

/// What `sed` reads from a script `s<d>pattern<d>replacement[<d>flags]`:
/// the pattern, the replacement and whether the flags hold `g`; `None` for
/// any other script, one with more parts among them.
pub open spec fn substitute_of(script: Seq<char>) -> Option<(Seq<char>, Seq<char>, bool)> {
    if script.len() < 2 || script[0] != 's' {
        None
    } else {
        let parts = split_chars(script.skip(2), script[1]);
        if parts.len() < 2 || parts.len() > 3 {
            None
        } else {
            let flags = if parts.len() == 3 { parts[2] } else { Seq::empty() };
            Some((parts[0], parts[1], flags.contains('g')))
        }
    }
}

pub fn parse_substitute_command(script: &str) -> (r: Option<SubstituteCommand>)
    ensures
        match substitute_of(script@) {
            Some((p, rep, g)) => r matches Some(c) && c.pattern@ == p && c.replacement@ == rep && c.global == g,
            None => r is None,
        },
{
    let cs = chars_of(script);
    if cs.len() < 2 || cs[0] != 's' {
        return None;
    }
    let delimiter = cs[1];
    let rest = string_of_range(&cs, 2, cs.len());
    let rc = chars_of(rest.as_str());
    assert(rc@ =~= script@.skip(2));
    let parts = split_on(rc.as_slice(), delimiter);
    if parts.len() < 2 || parts.len() > 3 {
        return None;
    }
    let pattern = string_of_range(&parts[0], 0, parts[0].len());
    let replacement = string_of_range(&parts[1], 0, parts[1].len());
    assert(parts@[0]@.subrange(0, parts@[0]@.len() as int) =~= parts@[0]@);
    assert(parts@[1]@.subrange(0, parts@[1]@.len() as int) =~= parts@[1]@);
    let mut global = false;
    if parts.len() == 3 {
        let flags = &parts[2];
        let mut i: usize = 0;
        while i < flags.len()
            invariant
                i <= flags@.len(),
                global == exists|k: int| 0 <= k < i && flags@[k] == 'g',
            decreases flags@.len() - i,
        {
            if flags[i] == 'g' {
                global = true;
            }
            i = i + 1;
        }
    }
    proof {
        let flags_spec: Seq<char> = if parts@.len() == 3 { parts@[2]@ } else { Seq::empty() };
        assert(global == flags_spec.contains('g'));
    }
    Some(SubstituteCommand { pattern, replacement, global })
}

/// A script `s<d>p<d>r<d>f` (none of `p`, `r`, `f` holding the delimiter
/// `d`) substitutes `r` for `p`, everywhere exactly when the flags `f` hold
/// `g`; `s<d>p<d>r` substitutes the first occurrence only.
pub proof fn lemma_substitute_script(d: char, p: Seq<char>, r: Seq<char>, f: Seq<char>)
    requires
        !p.contains(d),
        !r.contains(d),
        !f.contains(d),
    ensures
        substitute_of(seq!['s', d] + p + seq![d] + r + seq![d] + f) == Some((p, r, f.contains('g'))),
        substitute_of(seq!['s', d] + p + seq![d] + r) == Some((p, r, false)),
{
    let full = seq!['s', d] + p + seq![d] + r + seq![d] + f;
    let short = seq!['s', d] + p + seq![d] + r;
    assert(full.skip(2) =~= (p + seq![d] + r) + seq![d] + f);
    assert(short.skip(2) =~= p + seq![d] + r);
    lemma_split_whole(p, d);
    lemma_split_then(p, d, r);
    lemma_split_then(p + seq![d] + r, d, f);
    assert(split_chars(full.skip(2), d) =~= seq![p, r, f]);
    assert(split_chars(short.skip(2), d) =~= seq![p, r]);
    assert(full[0] == 's' && full[1] == d);
    assert(short[0] == 's' && short[1] == d);
    assert(!Seq::<char>::empty().contains('g'));
}

/// `s` from position `i` on with occurrences of the non-empty `p` replaced by
/// `r`, from left to right without overlap, at most `limit` of them (all
/// where `limit` is `None`).
pub open spec fn replaced(s: Seq<char>, p: Seq<char>, r: Seq<char>, i: int, limit: Option<nat>) -> Seq<char>
    decreases s.len() - i,
{
    if i < 0 || i >= s.len() || p.len() == 0 {
        if 0 <= i < s.len() { s.skip(i) } else { Seq::empty() }
    } else if limit != Some(0nat) && occurs_at(s, p, i) {
        r + replaced(
            s,
            p,
            r,
            i + p.len(),
            match limit {
                Some(n) => Some((n - 1) as nat),
                None => None,
            },
        )
    } else {
        seq![s[i]] + replaced(s, p, r, i + 1, limit)
    }
}

proof fn lemma_replaced_none_left(s: Seq<char>, p: Seq<char>, r: Seq<char>, i: int)
    requires
        0 <= i <= s.len(),
    ensures
        replaced(s, p, r, i, Some(0nat)) == s.skip(i),
    decreases s.len() - i,
{
    if i < s.len() && p.len() > 0 {
        lemma_replaced_none_left(s, p, r, i + 1);
        assert(seq![s[i]] + s.skip(i + 1) =~= s.skip(i));
    } else if i == s.len() {
        assert(s.skip(i) =~= Seq::<char>::empty());
    }
}

proof fn lemma_replaced_first(a: Seq<char>, p: Seq<char>, r: Seq<char>, b: Seq<char>, i: int)
    requires
        p.len() > 0,
        0 <= i <= a.len(),
        forall|k: int| 0 <= k < a.len() ==> !#[trigger] occurs_at(a + p + b, p, k),
    ensures
        replaced(a + p + b, p, r, i, Some(1nat)) == a.skip(i) + r + b,
    decreases a.len() - i,
{
    let s = a + p + b;
    if i < a.len() {
        lemma_replaced_first(a, p, r, b, i + 1);
        assert(s[i] == a[i]);
        assert(seq![a[i]] + a.skip(i + 1) =~= a.skip(i));
        assert(seq![s[i]] + (a.skip(i + 1) + r + b) =~= a.skip(i) + r + b);
    } else {
        assert(s.subrange(i, i + p.len()) =~= p);
        assert(occurs_at(s, p, i));
        lemma_replaced_none_left(s, p, r, i + p.len());
        assert(s.skip(i + p.len()) =~= b);
        assert(a.skip(i) =~= Seq::<char>::empty());
        assert(a.skip(i) + r + b =~= r + b);
    }
}

/// With `g` every occurrence is replaced: a line made of `p` twice, then
/// `b` (which holds no `p`), becomes `r` twice, then `b`; without `g` only
/// the first `p` becomes `r`.
pub proof fn lemma_global_replaces_all(p: Seq<char>, r: Seq<char>, b: Seq<char>)
    requires
        p.len() > 0,
        forall|k: int| 0 <= k <= b.len() ==> !#[trigger] occurs_at(b, p, k),
    ensures
        substituted(p + p + b, p, r, true) == r + r + b,
        substituted(p + p + b, p, r, false) == r + p + b,
{
    let s = p + p + b;
    let n = p.len() as int;
    assert(s.subrange(0, n) =~= p);
    assert(occurs_at(s, p, 0));
    assert(s.subrange(n, n + n) =~= p);
    assert(occurs_at(s, p, n));
    assert(s.skip(2 * n) =~= b);
    lemma_replaced_no_more(s, p, r, 2 * n, b);
    assert(replaced(s, p, r, n, None) == r + replaced(s, p, r, 2 * n, None));
    assert(replaced(s, p, r, 0, None) == r + replaced(s, p, r, n, None));
    assert(r + (r + b) =~= r + r + b);
    lemma_replaced_none_left(s, p, r, n);
    assert(s.skip(n) =~= p + b);
    assert(r + (p + b) =~= r + p + b);
}

proof fn lemma_replaced_no_more(s: Seq<char>, p: Seq<char>, r: Seq<char>, i: int, b: Seq<char>)
    requires
        p.len() > 0,
        0 <= i <= s.len(),
        s.skip(i) == b,
        forall|k: int| 0 <= k <= b.len() ==> !#[trigger] occurs_at(b, p, k),
    ensures
        replaced(s, p, r, i, None) == s.skip(i),
    decreases s.len() - i,
{
    if i < s.len() {
        assert(!occurs_at(s, p, i)) by {
            if occurs_at(s, p, i) {
                assert(b.subrange(0, p.len() as int) =~= s.subrange(i, i + p.len()));
                assert(occurs_at(b, p, 0));
            }
        }
        let b2 = b.skip(1);
        assert(s.skip(i + 1) =~= b2);
        assert forall|k: int| 0 <= k <= b2.len() implies !#[trigger] occurs_at(b2, p, k) by {
            if occurs_at(b2, p, k) {
                assert(b.subrange(k + 1, k + 1 + p.len()) =~= b2.subrange(k, k + p.len()));
                assert(occurs_at(b, p, k + 1));
            }
        }
        lemma_replaced_no_more(s, p, r, i + 1, b2);
        assert(seq![s[i]] + s.skip(i + 1) =~= s.skip(i));
    } else {
        assert(s.skip(i) =~= Seq::<char>::empty());
    }
}

/// Without `g` only the first occurrence is replaced: where `p` first
/// occurs right after `a`, the line `a + p + b` becomes `a + r + b`, and
/// `b` is kept as it is even where it holds `p` again.
pub proof fn lemma_first_only(a: Seq<char>, p: Seq<char>, r: Seq<char>, b: Seq<char>)
    requires
        p.len() > 0,
        forall|k: int| 0 <= k < a.len() ==> !#[trigger] occurs_at(a + p + b, p, k),
    ensures
        substituted(a + p + b, p, r, false) == a + r + b,
{
    lemma_replaced_first(a, p, r, b, 0);
    assert(a.skip(0) =~= a);
}

/// The line after the command: unchanged for an empty pattern; else every
/// occurrence replaced with `g`, the first one without.
pub open spec fn substituted(line: Seq<char>, p: Seq<char>, r: Seq<char>, global: bool) -> Seq<char> {
    if p.len() == 0 {
        line
    } else {
        replaced(line, p, r, 0, if global { None } else { Some(1nat) })
    }
}

pub fn apply_substitute(input: &str, command: &SubstituteCommand) -> (r: String)
    ensures
        r@ == substituted(input@, command.pattern@, command.replacement@, command.global),
{
    let s = chars_of(input);
    let p = chars_of(command.pattern.as_str());
    if p.len() == 0 {
        return String::from_str(input);
    }
    let n = s.len();
    let m = p.len();
    let mut out = String::new();
    let mut i: usize = 0;
    let mut done = false;
    let ghost rep = command.replacement@;
    let ghost limit0: Option<nat> = if command.global { None } else { Some(1nat) };
    let ghost mut limit: Option<nat> = limit0;
    while i < n
        invariant
            n == s@.len(),
            m == p@.len(),
            m > 0,
            s@ == input@,
            p@ == command.pattern@,
            rep == command.replacement@,
            i <= n,
            done ==> !command.global,
            limit == (if command.global { None } else if done { Some(0nat) } else { Some(1nat) }),
            out@ + replaced(s@, p@, rep, i as int, limit) == replaced(s@, p@, rep, 0, limit0),
        decreases n - i,
    {
        if !done && m <= n - i && crate::locale::occurs_here(&s, &p, i) {
            out.append(command.replacement.as_str());
            proof {
                let next_limit: Option<nat> = match limit {
                    Some(k) => Some((k - 1) as nat),
                    None => None,
                };
                assert(replaced(s@, p@, rep, i as int, limit) == rep + replaced(s@, p@, rep, i + m, next_limit));
            }
            i = i + m;
            if !command.global {
                done = true;
            }
            proof {
                limit = if command.global { None } else if done { Some(0nat) } else { Some(1nat) };
                assert(out@ + replaced(s@, p@, rep, i as int, limit) =~= replaced(s@, p@, rep, 0, limit0));
            }
        } else {
            let c = s[i];
            proof {
                assert(!(limit != Some(0nat) && occurs_at(s@, p@, i as int)));
                assert(i < s@.len());
                assert(s@[i as int] == c);
                assert(replaced(s@, p@, rep, i as int, limit) == seq![c] + replaced(s@, p@, rep, i + 1, limit));
            }
            push_char(&mut out, c);
            i = i + 1;
            assert(out@ + replaced(s@, p@, rep, i as int, limit) =~= replaced(s@, p@, rep, 0, limit0));
        }
    }
    assert(out@ =~= replaced(s@, p@, rep, 0, limit0));
    out
}

} // verus!
