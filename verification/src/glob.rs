//! Shell-style wildcard patterns (`*`, `?`, `[...]`, `\`) matched byte by
//! byte against a whole name or a whole path.

use vstd::prelude::*;
use crate::path::{file_name_of, path_file_name};

verus! {

broadcast use vstd::string::group_string_axioms;

#[derive(Debug, Clone, PartialEq)]
pub enum GlobError {
    InvalidPattern(String),
}

pub const STAR: u8 = 42;
pub const QUESTION: u8 = 63;
pub const OPEN: u8 = 91;
pub const CLOSE: u8 = 93;
pub const BACKSLASH: u8 = 92;
pub const BANG: u8 = 33;
pub const CARET: u8 = 94;
pub const DASH: u8 = 45;

/// The message reported for a `[` without its `]`.
pub open spec fn unterminated_message() -> Seq<char> {
    "unterminated bracket expression"@
}

/// The message reported for a pattern that ends in a lone `\`.
pub open spec fn trailing_backslash_message() -> Seq<char> {
    "trailing backslash"@
}

/// The index of the first `]` in `p` from `i` on.
pub open spec fn first_close(p: Seq<u8>, i: int) -> Option<int>
    decreases p.len() - i,
{
    if i < 0 || i >= p.len() {
        None
    } else if p[i] == CLOSE {
        Some(i)
    } else {
        first_close(p, i + 1)
    }
}

/// The first `]` found from `i` on lies at or after `i`, inside `p`.
pub proof fn lemma_first_close_bounds(p: Seq<u8>, i: int)
    ensures
        first_close(p, i) matches Some(c) ==> i <= c < p.len() && p[c] == CLOSE,
    decreases p.len() - i,
{
    if 0 <= i < p.len() && p[i] != CLOSE {
        lemma_first_close_bounds(p, i + 1);
    }
}

/// Whether the items of a bracket body from index `i` on accept `c`: each
/// item is a range `lo-hi` or a single byte.
pub open spec fn bracket_items_accept(p: Seq<u8>, i: int, c: u8) -> bool
    decreases p.len() - i,
{
    if i < 0 || i >= p.len() {
        false
    } else if i + 2 < p.len() && p[i + 1] == DASH {
        (p[i] <= c && c <= p[i + 2]) || bracket_items_accept(p, i + 3, c)
    } else {
        p[i] == c || bracket_items_accept(p, i + 1, c)
    }
}

/// Whether the body of a bracket expression (the bytes between `[` and `]`)
/// accepts `c`; a leading `!` or `^` negates it.
pub open spec fn bracket_accepts(p: Seq<u8>, c: u8) -> bool {
    if p.len() == 0 {
        false
    } else if p[0] == BANG || p[0] == CARET {
        !bracket_items_accept(p, 1, c)
    } else {
        bracket_items_accept(p, 0, c)
    }
}

/// Whether the pattern from index `pi` matches the input from index `si`, or
/// the message of the error that the matcher reports first.
pub open spec fn glob_at(p: Seq<u8>, pi: int, s: Seq<u8>, si: int) -> Result<bool, Seq<char>>
    decreases (if pi <= p.len() { p.len() - pi } else { 0 }), 0int,
{
    if pi < 0 || pi >= p.len() || si < 0 || si > s.len() {
        Ok(si == s.len())
    } else {
        let b = p[pi];
        if b == STAR {
            if pi + 1 == p.len() {
                Ok(true)
            } else {
                star_from(p, pi + 1, s, si)
            }
        } else if b == QUESTION {
            if si == s.len() {
                Ok(false)
            } else {
                glob_at(p, pi + 1, s, si + 1)
            }
        } else if b == OPEN {
            if si == s.len() {
                Ok(false)
            } else {
                match first_close(p, pi + 1) {
                    None => Err(unterminated_message()),
                    Some(close) => {
                        proof {
                            lemma_first_close_bounds(p, pi + 1);
                        }
                        if bracket_accepts(p.subrange(pi + 1, close), s[si]) {
                            glob_at(p, close + 1, s, si + 1)
                        } else {
                            Ok(false)
                        }
                    },
                }
            }
        } else if b == BACKSLASH {
            if pi + 1 == p.len() {
                Err(trailing_backslash_message())
            } else if si == s.len() || s[si] != p[pi + 1] {
                Ok(false)
            } else {
                glob_at(p, pi + 2, s, si + 1)
            }
        } else {
            if si == s.len() || s[si] != b {
                Ok(false)
            } else {
                glob_at(p, pi + 1, s, si + 1)
            }
        }
    }
}

/// A `*` followed by the pattern from `pi`: the rest is tried against the
/// input from `k`, `k + 1`, ... in turn, and the first success or error wins.
pub open spec fn star_from(p: Seq<u8>, pi: int, s: Seq<u8>, k: int) -> Result<bool, Seq<char>>
    decreases (if pi <= p.len() { p.len() - pi } else { 0 }), (if k <= s.len() { s.len() + 1 - k } else { 0 }),
{
    if k < 0 || k > s.len() || pi < 1 || pi > p.len() {
        Ok(false)
    } else {
        match glob_at(p, pi, s, k) {
            Err(e) => Err(e),
            Ok(true) => Ok(true),
            Ok(false) => star_from(p, pi, s, k + 1),
        }
    }
}

/// How the pattern `p` judges the whole input `s`.
pub open spec fn glob_match(p: Seq<u8>, s: Seq<u8>) -> Result<bool, Seq<char>> {
    glob_at(p, 0, s, 0)
}

/// The `Result` the matcher returns for the judgement `j`.
pub open spec fn reports(r: Result<bool, GlobError>, j: Result<bool, Seq<char>>) -> bool {
    match j {
        Ok(b) => r == Ok::<bool, GlobError>(b),
        Err(msg) => r matches Err(GlobError::InvalidPattern(m)) && m@ == msg,
    }
}

/// The name that [`matches`] tests: the final component of `path`, or the
/// whole of it where it has none.
pub open spec fn name_part(path: Seq<char>) -> Seq<char> {
    match file_name_of(path) {
        Some(n) => n,
        None => path,
    }
}

/// Matches `pattern` against the final component of `path`.
pub fn matches(pattern: &str, path: &str) -> (r: Result<bool, GlobError>)
    ensures
        reports(r, glob_match(encode_utf8_of(pattern@), encode_utf8_of(name_part(path@)))),
{
    let p = pattern.as_bytes();
    match path_file_name(path) {
        Some(n) => {
            let bytes = n.as_bytes();
            do_match(p, 0, bytes, 0)
        },
        None => {
            let bytes = path.as_bytes();
            do_match(p, 0, bytes, 0)
        },
    }
}

/// The UTF-8 encoding of a sequence of characters.
pub open spec fn encode_utf8_of(cs: Seq<char>) -> Seq<u8> {
    vstd::utf8::encode_utf8(cs)
}

/// Matches `pattern` against the whole of `path`, separators included.
pub fn matches_path(pattern: &str, path: &str) -> (r: Result<bool, GlobError>)
    ensures
        reports(r, glob_match(encode_utf8_of(pattern@), encode_utf8_of(path@))),
{
    do_match(pattern.as_bytes(), 0, path.as_bytes(), 0)
}

fn unterminated_error() -> (e: GlobError)
    ensures
        e matches GlobError::InvalidPattern(m) && m@ == unterminated_message(),
{
    GlobError::InvalidPattern(String::from_str("unterminated bracket expression"))
}

fn trailing_backslash_error() -> (e: GlobError)
    ensures
        e matches GlobError::InvalidPattern(m) && m@ == trailing_backslash_message(),
{
    GlobError::InvalidPattern(String::from_str("trailing backslash"))
}

fn do_match(pattern: &[u8], pi: usize, input: &[u8], si: usize) -> (r: Result<bool, GlobError>)
    requires
        pi <= pattern@.len(),
        si <= input@.len(),
    ensures
        reports(r, glob_at(pattern@, pi as int, input@, si as int)),
    decreases pattern@.len() - pi, 0int,
{
    if pi == pattern.len() {
        return Ok(si == input.len());
    }
    let b = pattern[pi];
    if b == STAR {
        if pi + 1 == pattern.len() {
            return Ok(true);
        }
        let rest = pi + 1;
        let mut k: usize = si;
        loop
            invariant
                rest == pi + 1,
                rest < pattern@.len(),
                si <= k <= input@.len(),
                glob_at(pattern@, pi as int, input@, si as int) == star_from(pattern@, rest as int, input@, k as int),
            decreases input@.len() - k,
        {
            match do_match(pattern, rest, input, k) {
                Err(e) => {
                    return Err(e);
                },
                Ok(true) => {
                    return Ok(true);
                },
                Ok(false) => {},
            }
            if k == input.len() {
                assert(star_from(pattern@, rest as int, input@, k + 1) == Ok::<bool, Seq<char>>(false));
                return Ok(false);
            }
            k = k + 1;
        }
    } else if b == QUESTION {
        if si == input.len() {
            return Ok(false);
        }
        do_match(pattern, pi + 1, input, si + 1)
    } else if b == OPEN {
        if si == input.len() {
            return Ok(false);
        }
        let close = match find_close_bracket(pattern, pi + 1) {
            Some(c) => c,
            None => {
                return Err(unterminated_error());
            },
        };
        if match_bracket(pattern, pi + 1, close, input[si]) {
            do_match(pattern, close + 1, input, si + 1)
        } else {
            Ok(false)
        }
    } else if b == BACKSLASH {
        if pi + 1 == pattern.len() {
            return Err(trailing_backslash_error());
        }
        if si == input.len() || input[si] != pattern[pi + 1] {
            return Ok(false);
        }
        do_match(pattern, pi + 2, input, si + 1)
    } else {
        if si == input.len() || input[si] != b {
            return Ok(false);
        }
        do_match(pattern, pi + 1, input, si + 1)
    }
}

/// The index of the first `]` at or after `from`.
fn find_close_bracket(pattern: &[u8], from: usize) -> (r: Option<usize>)
    requires
        from <= pattern@.len(),
    ensures
        match r {
            Some(i) => first_close(pattern@, from as int) == Some(i as int) && from <= i < pattern@.len(),
            None => first_close(pattern@, from as int) is None,
        },
{
    let mut i = from;
    while i < pattern.len()
        invariant
            from <= i <= pattern@.len(),
            first_close(pattern@, from as int) == first_close(pattern@, i as int),
        decreases pattern@.len() - i,
    {
        if pattern[i] == CLOSE {
            return Some(i);
        }
        i = i + 1;
    }
    None
}

/// Whether the bracket body `pattern[lo..hi]` accepts `c`.
fn match_bracket(pattern: &[u8], lo: usize, hi: usize, c: u8) -> (r: bool)
    requires
        lo <= hi <= pattern@.len(),
    ensures
        r == bracket_accepts(pattern@.subrange(lo as int, hi as int), c),
{
    if lo == hi {
        return false;
    }
    let negate = pattern[lo] == BANG || pattern[lo] == CARET;
    if negate {
        !items_accept(pattern, lo, lo + 1, hi, c)
    } else {
        items_accept(pattern, lo, lo, hi, c)
    }
}

/// Whether the items of the bracket body `pattern[lo..hi]` from index `i`
/// on accept `c`.
fn items_accept(pattern: &[u8], lo: usize, i: usize, hi: usize, c: u8) -> (r: bool)
    requires
        lo <= i <= hi,
        hi <= pattern@.len(),
    ensures
        r == bracket_items_accept(pattern@.subrange(lo as int, hi as int), i - lo, c),
{
    let ghost body = pattern@.subrange(lo as int, hi as int);
    let mut k = i;
    while k < hi
        invariant
            lo <= i <= k,
            hi <= pattern@.len(),
            body == pattern@.subrange(lo as int, hi as int),
            bracket_items_accept(body, i - lo, c) == bracket_items_accept(body, k - lo, c),
        decreases hi - k,
    {
        if hi - k > 2 && pattern[k + 1] == DASH {
            if c >= pattern[k] && c <= pattern[k + 2] {
                return true;
            }
            k = k + 3;
        } else {
            if pattern[k] == c {
                return true;
            }
            k = k + 1;
        }
    }
    false
}

/// A pattern from `pi` whose every `[` has its `]` and which does not end in
/// a lone `\`: one the matcher never rejects.
pub open spec fn well_formed_from(p: Seq<u8>, pi: int) -> bool
    decreases (if pi <= p.len() { p.len() - pi } else { 0 }),
{
    if pi < 0 || pi >= p.len() {
        true
    } else if p[pi] == OPEN {
        match first_close(p, pi + 1) {
            None => false,
            Some(close) => {
                proof {
                    lemma_first_close_bounds(p, pi + 1);
                }
                well_formed_from(p, close + 1)
            },
        }
    } else if p[pi] == BACKSLASH {
        pi + 1 < p.len() && well_formed_from(p, pi + 2)
    } else {
        well_formed_from(p, pi + 1)
    }
}

/// `k` is a place to cut `s`: between 0 and its length, both included.
pub open spec fn cut_at(s: Seq<u8>, k: int) -> bool {
    0 <= k <= s.len()
}

/// The inputs a pattern describes, read token by token: `*` stands for any
/// run of bytes (none included), `?` for any one byte, `[...]` for one byte
/// that the bracket accepts, `\x` for the byte `x`, and any other byte for
/// itself. `glob_lang(p, pi, s, si)`: the pattern from `pi` describes the
/// input from `si` to its end.
pub open spec fn glob_lang(p: Seq<u8>, pi: int, s: Seq<u8>, si: int) -> bool
    decreases (if pi <= p.len() { p.len() - pi } else { 0 }),
{
    if pi < 0 || pi >= p.len() {
        si == s.len()
    } else {
        let b = p[pi];
        if b == STAR {
            exists|k: int| #[trigger] cut_at(s, k) && si <= k && glob_lang(p, pi + 1, s, k)
        } else if b == QUESTION {
            si < s.len() && glob_lang(p, pi + 1, s, si + 1)
        } else if b == OPEN {
            match first_close(p, pi + 1) {
                None => false,
                Some(close) => {
                    proof {
                        lemma_first_close_bounds(p, pi + 1);
                    }
                    si < s.len() && bracket_accepts(p.subrange(pi + 1, close), s[si]) && glob_lang(
                        p,
                        close + 1,
                        s,
                        si + 1,
                    )
                },
            }
        } else if b == BACKSLASH {
            pi + 1 < p.len() && si < s.len() && s[si] == p[pi + 1] && glob_lang(p, pi + 2, s, si + 1)
        } else {
            si < s.len() && s[si] == b && glob_lang(p, pi + 1, s, si + 1)
        }
    }
}

proof fn lemma_glob_at_lang(p: Seq<u8>, pi: int, s: Seq<u8>, si: int)
    requires
        0 <= pi,
        0 <= si <= s.len(),
        well_formed_from(p, pi),
    ensures
        glob_at(p, pi, s, si) == Ok::<bool, Seq<char>>(glob_lang(p, pi, s, si)),
    decreases (if pi <= p.len() { p.len() - pi } else { 0 }), 0int,
{
    if pi < p.len() {
        let b = p[pi];
        if b == STAR {
            if pi + 1 == p.len() {
                assert(glob_lang(p, pi + 1, s, s.len() as int));
                assert(cut_at(s, s.len() as int));
            } else {
                lemma_star_lang(p, pi + 1, s, si);
            }
        } else if b == QUESTION {
            if si < s.len() {
                lemma_glob_at_lang(p, pi + 1, s, si + 1);
            }
        } else if b == OPEN {
            lemma_first_close_bounds(p, pi + 1);
            if si < s.len() {
                let close = first_close(p, pi + 1)->Some_0;
                lemma_glob_at_lang(p, close + 1, s, si + 1);
            }
        } else if b == BACKSLASH {
            if si < s.len() {
                lemma_glob_at_lang(p, pi + 2, s, si + 1);
            }
        } else {
            if si < s.len() {
                lemma_glob_at_lang(p, pi + 1, s, si + 1);
            }
        }
    }
}

proof fn lemma_star_lang(p: Seq<u8>, pi: int, s: Seq<u8>, k: int)
    requires
        1 <= pi <= p.len(),
        0 <= k <= s.len(),
        well_formed_from(p, pi),
    ensures
        star_from(p, pi, s, k) == Ok::<bool, Seq<char>>(
            exists|j: int| #[trigger] cut_at(s, j) && k <= j && glob_lang(p, pi, s, j),
        ),
    decreases (if pi <= p.len() { p.len() - pi } else { 0 }), s.len() + 1 - k,
{
    lemma_glob_at_lang(p, pi, s, k);
    assert(cut_at(s, k));
    if !glob_lang(p, pi, s, k) {
        if k < s.len() {
            lemma_star_lang(p, pi, s, k + 1);
            if exists|j: int| #[trigger] cut_at(s, j) && k + 1 <= j && glob_lang(p, pi, s, j) {
                let j = choose|j: int| #[trigger] cut_at(s, j) && k + 1 <= j && glob_lang(p, pi, s, j);
                assert(cut_at(s, j) && k <= j && glob_lang(p, pi, s, j));
            }
            if exists|j: int| #[trigger] cut_at(s, j) && k <= j && glob_lang(p, pi, s, j) {
                let j = choose|j: int| #[trigger] cut_at(s, j) && k <= j && glob_lang(p, pi, s, j);
                assert(j != k);
                assert(k + 1 <= j);
            }
        } else {
            assert(star_from(p, pi, s, k + 1) == Ok::<bool, Seq<char>>(false));
            if exists|j: int| #[trigger] cut_at(s, j) && k <= j && glob_lang(p, pi, s, j) {
                let j = choose|j: int| #[trigger] cut_at(s, j) && k <= j && glob_lang(p, pi, s, j);
                assert(j == k);
            }
        }
    }
}

/// For a pattern whose every `[` has its `]` and which does not end in a
/// lone `\`, the matcher never reports an error, and it accepts an input
/// exactly when the pattern describes it, token by token (see [`glob_lang`]).
pub proof fn lemma_glob_language(p: Seq<u8>, s: Seq<u8>)
    requires
        well_formed_from(p, 0),
    ensures
        glob_match(p, s) == Ok::<bool, Seq<char>>(glob_lang(p, 0, s, 0)),
{
    lemma_glob_at_lang(p, 0, s, 0);
}

proof fn lemma_items_without_ranges(p: Seq<u8>, i: int, c: u8)
    requires
        0 <= i,
        forall|k: int| 0 <= k < p.len() ==> p[k] != DASH,
    ensures
        bracket_items_accept(p, i, c) <==> exists|k: int| i <= k < p.len() && p[k] == c,
    decreases p.len() - i,
{
    if i < p.len() {
        lemma_items_without_ranges(p, i + 1, c);
        if exists|k: int| i <= k < p.len() && p[k] == c {
            let k = choose|k: int| i <= k < p.len() && p[k] == c;
            if k > i {
                assert(i + 1 <= k < p.len() && p[k] == c);
            }
        }
    }
}

/// A bracket that lists single bytes (no range, not negated) accepts
/// exactly the bytes it lists; negated with a leading `!` or `^`, exactly
/// the bytes it does not list.
pub proof fn lemma_bracket_lists(p: Seq<u8>, c: u8)
    requires
        p.len() > 0,
        forall|k: int| 0 <= k < p.len() ==> p[k] != DASH,
    ensures
        p[0] != BANG && p[0] != CARET ==> (bracket_accepts(p, c) <==> p.contains(c)),
        p[0] == BANG || p[0] == CARET ==> (bracket_accepts(p, c) <==> !p.skip(1).contains(c)),
{
    lemma_items_without_ranges(p, 0, c);
    lemma_items_without_ranges(p, 1, c);
    if p.skip(1).contains(c) {
        let k = choose|k: int| 0 <= k < p.skip(1).len() && p.skip(1)[k] == c;
        assert(p[k + 1] == c);
    }
    if exists|k: int| 1 <= k < p.len() && p[k] == c {
        let k = choose|k: int| 1 <= k < p.len() && p[k] == c;
        assert(p.skip(1)[k - 1] == c);
    }
}

/// A bracket `lo-hi` accepts exactly the bytes from `lo` to `hi`.
pub proof fn lemma_bracket_range(lo: u8, hi: u8, c: u8)
    requires
        lo != BANG && lo != CARET,
    ensures
        bracket_accepts(seq![lo, DASH, hi], c) <==> lo <= c <= hi,
{
    let p = seq![lo, DASH, hi];
    assert(bracket_items_accept(p, 3, c) == false);
}

} // verus!
