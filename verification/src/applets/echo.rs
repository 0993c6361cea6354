//! `echo` and `printf`: options, escape sequences and format directives.

use vstd::prelude::*;
use crate::text::{chars_of, push_char, parse_i64, signed_decimal_string, signed_decimal, parse_signed};

verus! {

broadcast use vstd::std_specs::vec::group_vec_axioms;

/// The value of an octal digit.
pub open spec fn octal_value(c: char) -> int {
    (c as int) - ('0' as int)
}

pub open spec fn is_octal(c: char) -> bool {
    '0' <= c && c <= '7'
}

/// The number of octal digits (at most three) that follow position `i`.
pub open spec fn octal_run(cs: Seq<char>, i: int) -> int {
    if i < cs.len() && is_octal(cs[i]) {
        if i + 1 < cs.len() && is_octal(cs[i + 1]) {
            if i + 2 < cs.len() && is_octal(cs[i + 2]) {
                3
            } else {
                2
            }
        } else {
            1
        }
    } else {
        0
    }
}

/// The value of the `n` octal digits at `i`.
pub open spec fn octal_digits_value(cs: Seq<char>, i: int, n: int) -> int
    decreases n,
{
    if n <= 0 {
        0
    } else {
        octal_digits_value(cs, i, n - 1) * 8 + octal_value(cs[i + n - 1])
    }
}

/// What `echo -e` makes of `cs` from position `i` on: `\a \b \f \n \r \t
/// \v \\` stand for their control characters, `\c` ends the output, `\0`
/// followed by up to three octal digits stands for that byte (nothing where
/// the digits are missing or exceed 255), and any other escape is kept.
pub open spec fn echo_escapes(cs: Seq<char>, i: int) -> Seq<char>
    decreases cs.len() - i,
{
    if i < 0 || i >= cs.len() {
        Seq::empty()
    } else if cs[i] != '\\' {
        seq![cs[i]] + echo_escapes(cs, i + 1)
    } else if i + 1 >= cs.len() {
        seq!['\\']
    } else {
        let e = cs[i + 1];
        if e == 'c' {
            Seq::empty()
        } else if e == '0' {
            let n = octal_run(cs, i + 2);
            let v = octal_digits_value(cs, i + 2, n);
            let out: Seq<char> = if n > 0 && v <= 255 { seq![(v as u32) as char] } else { Seq::empty() };
            out + echo_escapes(cs, i + 2 + n)
        } else {
            let mapped: Seq<char> = if e == 'a' {
                seq!['\u{07}']
            } else if e == 'b' {
                seq!['\u{08}']
            } else if e == 'f' {
                seq!['\u{0C}']
            } else if e == 'n' {
                seq!['\n']
            } else if e == 'r' {
                seq!['\r']
            } else if e == 't' {
                seq!['\t']
            } else if e == 'v' {
                seq!['\u{0B}']
            } else if e == '\\' {
                seq!['\\']
            } else {
                seq!['\\', e]
            };
            mapped + echo_escapes(cs, i + 2)
        }
    }
}

/// The text `echo -e` prints for the argument `s`.
pub fn interpret_escape_sequences(s: &str) -> (r: String)
    ensures
        r@ == echo_escapes(s@, 0),
{
    let cs = chars_of(s);
    let n = cs.len();
    let mut out = String::new();
    let mut i: usize = 0;
    while i < n
        invariant
            n == cs@.len(),
            cs@ == s@,
            i <= n,
            out@ + echo_escapes(cs@, i as int) == echo_escapes(cs@, 0),
        decreases n - i,
    {
        let c = cs[i];
        if c != '\\' {
            push_char(&mut out, c);
            assert(out@ + echo_escapes(cs@, i + 1) =~= echo_escapes(cs@, 0)) by {
                assert(echo_escapes(cs@, i as int) == seq![c] + echo_escapes(cs@, i + 1));
            }
            i = i + 1;
            continue;
        }
        if i + 1 == n {
            push_char(&mut out, '\\');
            assert(echo_escapes(cs@, i + 2) == Seq::<char>::empty());
            assert(out@ =~= echo_escapes(cs@, 0));
            return out;
        }
        let e = cs[i + 1];
        if e == 'c' {
            assert(out@ =~= echo_escapes(cs@, 0));
            return out;
        }
        if e == '0' {
            let start = i + 2;
            let mut len: usize = 0;
            let mut value: u32 = 0;
            while len < 3 && start + len < n && '0' <= cs[start + len] && cs[start + len] <= '7'
                invariant
                    n == cs@.len(),
                    start == i + 2,
                    start <= n,
                    len <= 3,
                    start + len <= n,
                    forall|k: int| 0 <= k < len ==> is_octal(#[trigger] cs@[start + k]),
                    value == octal_digits_value(cs@, start as int, len as int),
                    value < 512,
                decreases 3 - len,
            {
                let d = cs[start + len] as u32 - 48;
                assert(value * 8 + d < 4096) by (nonlinear_arith)
                    requires
                        value < 512,
                        d < 8,
                ;
                value = value * 8 + d;
                len = len + 1;
                assert(value == octal_digits_value(cs@, start as int, len as int));
                assert(value < 512) by {
                    if len <= 3 {
                    }
                    assert(octal_digits_value(cs@, start as int, len as int) < 512) by {
                        lemma_octal_bound(cs@, start as int, len as int);
                    }
                }
            }
            assert(len == octal_run(cs@, start as int)) by {
                if len < 3 {
                    assert(!(start + len < n && is_octal(cs@[start + len])));
                }
            }
            let ghost before = out@;
            if len > 0 && value <= 255 {
                let ch = (value as u8) as char;
                push_char(&mut out, ch);
            }
            proof {
                let out_part: Seq<char> = if len > 0 && value <= 255 {
                    seq![(value as u32) as char]
                } else {
                    Seq::empty()
                };
                assert(out@ == before + out_part);
                assert(echo_escapes(cs@, i as int) == out_part + echo_escapes(cs@, (start + len) as int));
                assert(out@ + echo_escapes(cs@, (start + len) as int) =~= echo_escapes(cs@, 0));
            }
            i = start + len;
            continue;
        }
        let ghost before = out@;
        if e == 'a' {
            push_char(&mut out, '\u{07}');
        } else if e == 'b' {
            push_char(&mut out, '\u{08}');
        } else if e == 'f' {
            push_char(&mut out, '\u{0C}');
        } else if e == 'n' {
            push_char(&mut out, '\n');
        } else if e == 'r' {
            push_char(&mut out, '\r');
        } else if e == 't' {
            push_char(&mut out, '\t');
        } else if e == 'v' {
            push_char(&mut out, '\u{0B}');
        } else if e == '\\' {
            push_char(&mut out, '\\');
        } else {
            push_char(&mut out, '\\');
            push_char(&mut out, e);
        }
        proof {
            let mapped: Seq<char> = if e == 'a' {
                seq!['\u{07}']
            } else if e == 'b' {
                seq!['\u{08}']
            } else if e == 'f' {
                seq!['\u{0C}']
            } else if e == 'n' {
                seq!['\n']
            } else if e == 'r' {
                seq!['\r']
            } else if e == 't' {
                seq!['\t']
            } else if e == 'v' {
                seq!['\u{0B}']
            } else if e == '\\' {
                seq!['\\']
            } else {
                seq!['\\', e]
            };
            assert(out@ =~= before + mapped);
            assert(echo_escapes(cs@, i as int) == mapped + echo_escapes(cs@, i + 2));
            assert(out@ + echo_escapes(cs@, i + 2) =~= echo_escapes(cs@, 0));
        }
        i = i + 2;
    }
    assert(out@ =~= echo_escapes(cs@, 0));
    out
}

proof fn lemma_octal_bound(cs: Seq<char>, i: int, n: int)
    requires
        0 <= n <= 3,
        forall|k: int| 0 <= k < n ==> is_octal(#[trigger] cs[i + k]),
    ensures
        0 <= octal_digits_value(cs, i, n) < 8 * 8 * 8,
        n <= 2 ==> octal_digits_value(cs, i, n) < 8 * 8,
        n <= 1 ==> octal_digits_value(cs, i, n) < 8,
    decreases n,
{
    if n > 0 {
        lemma_octal_bound(cs, i, n - 1);
        assert(is_octal(cs[i + n - 1]));
    }
}

/// The flags `echo` reads from the front of its arguments: how many
/// arguments they take up, whether a newline ends the output and whether
/// escapes are interpreted.
pub open spec fn echo_flags(args: Seq<Seq<char>>, k: int, newline: bool, escapes: bool) -> (int, bool, bool)
    decreases args.len() - k,
{
    if k < 0 || k >= args.len() {
        (k, newline, escapes)
    } else if args[k] == "-n"@ {
        echo_flags(args, k + 1, false, escapes)
    } else if args[k] == "-e"@ {
        echo_flags(args, k + 1, newline, true)
    } else if args[k] == "-ne"@ || args[k] == "-en"@ {
        echo_flags(args, k + 1, false, true)
    } else {
        (k, newline, escapes)
    }
}

/// The words joined with a space between them.
pub open spec fn join_space(words: Seq<Seq<char>>) -> Seq<char>
    decreases words.len(),
{
    if words.len() == 0 {
        Seq::empty()
    } else if words.len() == 1 {
        words[0]
    } else {
        join_space(words.drop_last()) + seq![' '] + words.last()
    }
}

pub open spec fn strings_view(v: Seq<String>) -> Seq<Seq<char>> {
    v.map_values(|s: String| s@)
}

/// The text `echo` prints for `args` (before its final newline) and whether
/// it ends with a newline.
pub open spec fn echo_text(args: Seq<Seq<char>>) -> (Seq<char>, bool) {
    let (k, newline, escapes) = echo_flags(args, 0, true, false);
    let words = args.subrange(k, args.len() as int);
    let shown = if escapes { words.map_values(|w: Seq<char>| echo_escapes(w, 0)) } else { words };
    (join_space(shown), newline)
}

/// What `echo` writes for `args`: the text and whether a newline follows it.
pub fn echo_output(args: &[String]) -> (r: (String, bool))
    ensures
        (r.0@, r.1) == echo_text(strings_view(args@)),
{
    let ghost all = strings_view(args@);
    let mut newline = true;
    let mut escapes = false;
    let mut k: usize = 0;
    while k < args.len()
        invariant
            k <= args@.len(),
            all == strings_view(args@),
            echo_flags(all, 0, true, false) == echo_flags(all, k as int, newline, escapes),
        ensures
            k <= args@.len(),
            echo_flags(all, 0, true, false) == (k as int, newline, escapes),
        decreases args@.len() - k,
    {
        let a = args[k].as_str();
        assert(all[k as int] == a@);
        if crate::text::str_eq(a, "-n") {
            newline = false;
        } else if crate::text::str_eq(a, "-e") {
            escapes = true;
        } else if crate::text::str_eq(a, "-ne") || crate::text::str_eq(a, "-en") {
            newline = false;
            escapes = true;
        } else {
            break;
        }
        k = k + 1;
    }
    let ghost words = all.subrange(k as int, all.len() as int);
    let ghost shown = if escapes { words.map_values(|w: Seq<char>| echo_escapes(w, 0)) } else { words };
    let mut out = String::new();
    let mut j: usize = k;
    while j < args.len()
        invariant
            k <= j <= args@.len(),
            all == strings_view(args@),
            words == all.subrange(k as int, all.len() as int),
            shown == (if escapes { words.map_values(|w: Seq<char>| echo_escapes(w, 0)) } else { words }),
            out@ == join_space(shown.subrange(0, j - k)),
        decreases args@.len() - j,
    {
        let piece = if escapes {
            interpret_escape_sequences(args[j].as_str())
        } else {
            args[j].clone()
        };
        assert(piece@ == shown[j - k]);
        let ghost pre = shown.subrange(0, j - k);
        let ghost next = shown.subrange(0, j - k + 1);
        assert(next.drop_last() =~= pre);
        if j > k {
            push_char(&mut out, ' ');
        }
        out.append(piece.as_str());
        assert(out@ =~= join_space(next));
        j = j + 1;
    }
    assert(shown.subrange(0, shown.len() as int) =~= shown);
    (out, newline)
}

/// What `printf`'s `%b` makes of `cs` from `i` on: `\n \t \r \\` stand for
/// their characters, any other escape is kept, and a final `\` stays.
pub open spec fn printf_escapes(cs: Seq<char>, i: int) -> Seq<char>
    decreases cs.len() - i,
{
    if i < 0 || i >= cs.len() {
        Seq::empty()
    } else if cs[i] != '\\' {
        seq![cs[i]] + printf_escapes(cs, i + 1)
    } else if i + 1 >= cs.len() {
        seq!['\\']
    } else {
        let e = cs[i + 1];
        let mapped: Seq<char> = if e == 'n' {
            seq!['\n']
        } else if e == 't' {
            seq!['\t']
        } else if e == 'r' {
            seq!['\r']
        } else if e == '\\' {
            seq!['\\']
        } else {
            seq!['\\', e]
        };
        mapped + printf_escapes(cs, i + 2)
    }
}

/// `printf`'s `%b` applied to `input`.
pub fn interpret_escapes(input: &str) -> (r: String)
    ensures
        r@ == printf_escapes(input@, 0),
{
    let cs = chars_of(input);
    let n = cs.len();
    let mut out = String::new();
    let mut i: usize = 0;
    while i < n
        invariant
            n == cs@.len(),
            cs@ == input@,
            i <= n,
            out@ + printf_escapes(cs@, i as int) == printf_escapes(cs@, 0),
        decreases n - i,
    {
        let c = cs[i];
        if c != '\\' {
            push_char(&mut out, c);
            assert(out@ + printf_escapes(cs@, i + 1) =~= printf_escapes(cs@, 0)) by {
                assert(printf_escapes(cs@, i as int) == seq![c] + printf_escapes(cs@, i + 1));
            }
            i = i + 1;
            continue;
        }
        if i + 1 == n {
            push_char(&mut out, '\\');
            assert(out@ =~= printf_escapes(cs@, 0));
            return out;
        }
        let e = cs[i + 1];
        let ghost before = out@;
        if e == 'n' {
            push_char(&mut out, '\n');
        } else if e == 't' {
            push_char(&mut out, '\t');
        } else if e == 'r' {
            push_char(&mut out, '\r');
        } else if e == '\\' {
            push_char(&mut out, '\\');
        } else {
            push_char(&mut out, '\\');
            push_char(&mut out, e);
        }
        proof {
            let mapped: Seq<char> = if e == 'n' {
                seq!['\n']
            } else if e == 't' {
                seq!['\t']
            } else if e == 'r' {
                seq!['\r']
            } else if e == '\\' {
                seq!['\\']
            } else {
                seq!['\\', e]
            };
            assert(out@ =~= before + mapped);
            assert(printf_escapes(cs@, i as int) == mapped + printf_escapes(cs@, i + 2));
            assert(out@ + printf_escapes(cs@, i + 2) =~= printf_escapes(cs@, 0));
        }
        i = i + 2;
    }
    assert(out@ =~= printf_escapes(cs@, 0));
    out
}

/// The argument at `k`, or nothing where there are fewer.
pub open spec fn arg_or_empty(args: Seq<Seq<char>>, k: int) -> Seq<char> {
    if 0 <= k < args.len() {
        args[k]
    } else {
        Seq::empty()
    }
}

/// The decimal text of the argument at `k` read as an `i64`, `0` where it
/// is missing or no number.
pub open spec fn arg_number(args: Seq<Seq<char>>, k: int) -> Seq<char> {
    if 0 <= k < args.len() {
        match parse_signed(args[k]) {
            Some(v) => signed_decimal(v),
            None => "0"@,
        }
    } else {
        "0"@
    }
}

/// What `printf` writes for the format `f` from position `i` on, with the
/// arguments from index `k` on: `%%` is `%`, `%s` the next argument, `%d`
/// the next as a number, `%b` the next with escapes, any other directive
/// is kept and a final `%` stays.
pub open spec fn printf_text(f: Seq<char>, i: int, args: Seq<Seq<char>>, k: int) -> Seq<char>
    decreases f.len() - i,
{
    if i < 0 || i >= f.len() {
        Seq::empty()
    } else if f[i] != '%' {
        seq![f[i]] + printf_text(f, i + 1, args, k)
    } else if i + 1 >= f.len() {
        seq!['%']
    } else {
        let spec = f[i + 1];
        if spec == '%' {
            seq!['%'] + printf_text(f, i + 2, args, k)
        } else if spec == 's' {
            arg_or_empty(args, k) + printf_text(f, i + 2, args, k + 1)
        } else if spec == 'd' {
            arg_number(args, k) + printf_text(f, i + 2, args, k + 1)
        } else if spec == 'b' {
            printf_escapes(arg_or_empty(args, k), 0) + printf_text(f, i + 2, args, k + 1)
        } else {
            seq!['%', spec] + printf_text(f, i + 2, args, k)
        }
    }
}

/// What `printf` writes for `args`: the first is the format, the rest its
/// arguments; nothing where there is no format.
pub fn printf_output(args: &[String]) -> (r: String)
    ensures
        args@.len() == 0 ==> r@ == Seq::<char>::empty(),
        args@.len() > 0 ==> r@ == printf_text(args@[0]@, 0, strings_view(args@), 1),
{
    let ghost all = strings_view(args@);
    let mut out = String::new();
    if args.len() == 0 {
        return out;
    }
    let f = chars_of(args[0].as_str());
    let n = f.len();
    let mut k: usize = 1;
    let mut i: usize = 0;
    while i < n
        invariant
            n == f@.len(),
            f@ == args@[0]@,
            args@.len() > 0,
            all == strings_view(args@),
            i <= n,
            1 <= k,
            2 * k <= i + 2,
            out@ + printf_text(f@, i as int, all, k as int) == printf_text(f@, 0, all, 1),
        decreases n - i,
    {
        let c = f[i];
        if c != '%' {
            push_char(&mut out, c);
            assert(out@ + printf_text(f@, i + 1, all, k as int) =~= printf_text(f@, 0, all, 1)) by {
                assert(printf_text(f@, i as int, all, k as int) == seq![c] + printf_text(f@, i + 1, all, k as int));
            }
            i = i + 1;
            continue;
        }
        if i + 1 == n {
            push_char(&mut out, '%');
            assert(out@ =~= printf_text(f@, 0, all, 1));
            return out;
        }
        let spec = f[i + 1];
        let ghost before = out@;
        if spec == '%' {
            push_char(&mut out, '%');
            assert(out@ + printf_text(f@, i + 2, all, k as int) =~= printf_text(f@, 0, all, 1));
        } else if spec == 's' || spec == 'd' || spec == 'b' {
            let piece: String = if k < args.len() {
                let a = args[k].as_str();
                assert(all[k as int] == a@);
                if spec == 's' {
                    String::from_str(a)
                } else if spec == 'd' {
                    match parse_i64(a) {
                        Some(v) => signed_decimal_string(v),
                        None => String::from_str("0"),
                    }
                } else {
                    interpret_escapes(a)
                }
            } else {
                if spec == 's' {
                    proof { reveal_strlit(""); }
                    String::new()
                } else if spec == 'd' {
                    String::from_str("0")
                } else {
                    let empty = String::new();
                    interpret_escapes(empty.as_str())
                }
            };
            proof {
                if k >= args@.len() && spec == 'b' {
                    assert(arg_or_empty(all, k as int) == Seq::<char>::empty());
                }
            }
            out.append(piece.as_str());
            assert(out@ + printf_text(f@, i + 2, all, k + 1) =~= printf_text(f@, 0, all, 1));
            k = k + 1;
        } else {
            push_char(&mut out, '%');
            push_char(&mut out, spec);
            assert(out@ + printf_text(f@, i + 2, all, k as int) =~= printf_text(f@, 0, all, 1));
        }
        i = i + 2;
    }
    assert(out@ =~= printf_text(f@, 0, all, 1));
    out
}

} // verus!
