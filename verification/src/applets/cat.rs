//! `cat`: its options, and the bytes it writes for each line: numbering,
//! squeezing of blank lines, `^I` for tabs, `^X` for control bytes and `$`
//! at line ends.

use vstd::prelude::*;
use crate::text::{chars_of, decimal, decimal_string, pad_left, pad_left_string, str_eq};

verus! {

broadcast use vstd::std_specs::vec::group_vec_axioms;

#[derive(Debug, Clone, Copy, PartialEq, Eq, Structural)]
pub struct CatFlags {
    pub number_lines: bool,
    pub squeeze_blank: bool,
    pub show_ends: bool,
    pub show_tabs: bool,
}

#[derive(Debug, Clone)]
pub struct CatOptions {
    pub flags: CatFlags,
    pub files: Vec<String>,
}

pub open spec fn no_flags() -> CatFlags {
    CatFlags { number_lines: false, squeeze_blank: false, show_ends: false, show_tabs: false }
}

/// The flags after the option letter `c`, or `None` where `c` is no option.
pub open spec fn flag_letter(f: CatFlags, c: char) -> Option<CatFlags> {
    if c == 'n' {
        Some(CatFlags { number_lines: true, ..f })
    } else if c == 'b' {
        Some(CatFlags { number_lines: true, squeeze_blank: true, ..f })
    } else if c == 's' {
        Some(CatFlags { squeeze_blank: true, ..f })
    } else if c == 'E' || c == 'e' {
        Some(CatFlags { show_ends: true, ..f })
    } else if c == 'T' || c == 't' {
        Some(CatFlags { show_tabs: true, ..f })
    } else if c == 'A' {
        Some(CatFlags { show_ends: true, show_tabs: true, ..f })
    } else {
        None
    }
}

/// The flags after the letters of a cluster from position `i`, or the
/// first letter that is no option.
pub open spec fn cluster_flags(a: Seq<char>, i: int, f: CatFlags) -> Result<CatFlags, char>
    decreases a.len() - i,
{
    if i < 0 || i >= a.len() {
        Ok(f)
    } else {
        match flag_letter(f, a[i]) {
            Some(g) => cluster_flags(a, i + 1, g),
            None => Err(a[i]),
        }
    }
}

/// How `cat` reads its arguments from index `k` on: the flags and the files,
/// or the first invalid option letter. `--` makes the rest files.
pub open spec fn cat_args(args: Seq<Seq<char>>, k: int, f: CatFlags, files: Seq<Seq<char>>) -> Result<(CatFlags, Seq<Seq<char>>), char>
    decreases args.len() - k,
{
    if k < 0 || k >= args.len() {
        Ok((f, files))
    } else {
        let a = args[k];
        if a == "--"@ {
            Ok((f, files + args.subrange(k + 1, args.len() as int)))
        } else if a.len() > 1 && a[0] == '-' {
            match cluster_flags(a, 1, f) {
                Ok(g) => cat_args(args, k + 1, g, files),
                Err(c) => Err(c),
            }
        } else {
            cat_args(args, k + 1, f, files.push(a))
        }
    }
}

pub open spec fn strings_view(v: Seq<String>) -> Seq<Seq<char>> {
    v.map_values(|s: String| s@)
}

fn apply_letter(f: CatFlags, c: char) -> (r: Option<CatFlags>)
    ensures
        r == flag_letter(f, c),
{
    if c == 'n' {
        Some(CatFlags { number_lines: true, ..f })
    } else if c == 'b' {
        Some(CatFlags { number_lines: true, squeeze_blank: true, ..f })
    } else if c == 's' {
        Some(CatFlags { squeeze_blank: true, ..f })
    } else if c == 'E' || c == 'e' {
        Some(CatFlags { show_ends: true, ..f })
    } else if c == 'T' || c == 't' {
        Some(CatFlags { show_tabs: true, ..f })
    } else if c == 'A' {
        Some(CatFlags { show_ends: true, show_tabs: true, ..f })
    } else {
        None
    }
}

impl CatOptions {
    /// Reads `cat`'s arguments; an invalid option letter is the error.
    pub fn parse(args: &[String]) -> (r: Result<CatOptions, char>)
        ensures
            match cat_args(strings_view(args@), 0, no_flags(), Seq::empty()) {
                Ok((f, files)) => r matches Ok(o) && o.flags == f && strings_view(o.files@) == files,
                Err(c) => r == Err::<CatOptions, char>(c),
            },
    {
        let ghost all = strings_view(args@);
        let mut flags = CatFlags { number_lines: false, squeeze_blank: false, show_ends: false, show_tabs: false };
        let mut files: Vec<String> = Vec::new();
        let mut k: usize = 0;
        assert(strings_view(files@) =~= Seq::<Seq<char>>::empty());
        while k < args.len()
            invariant
                k <= args@.len(),
                all == strings_view(args@),
                cat_args(all, 0, no_flags(), Seq::empty()) == cat_args(all, k as int, flags, strings_view(files@)),
            decreases args@.len() - k,
        {
            let a = args[k].as_str();
            assert(all[k as int] == a@);
            if str_eq(a, "--") {
                let ghost base = strings_view(files@);
                let mut j = k + 1;
                while j < args.len()
                    invariant
                        k < j <= args@.len(),
                        all == strings_view(args@),
                        strings_view(files@) == base + all.subrange(k + 1, j as int),
                    decreases args@.len() - j,
                {
                    let ghost before = files@;
                    files.push(args[j].clone());
                    assert(strings_view(files@) =~= strings_view(before).push(all[j as int]));
                    assert(all.subrange(k + 1, j + 1) =~= all.subrange(k + 1, j as int).push(all[j as int]));
                    j = j + 1;
                }
                return Ok(CatOptions { flags, files });
            }
            let cs = chars_of(a);
            if cs.len() > 1 && cs[0] == '-' {
                match cluster(&cs, flags) {
                    Ok(g) => {
                        flags = g;
                    },
                    Err(c) => {
                        return Err(c);
                    },
                }
            } else {
                let ghost before = files@;
                files.push(args[k].clone());
                assert(strings_view(files@) =~= strings_view(before).push(a@));
            }
            k = k + 1;
        }
        Ok(CatOptions { flags, files })
    }
}

/// The flags after the letters of the cluster `cs` (from its second
/// character).
fn cluster(cs: &Vec<char>, f: CatFlags) -> (r: Result<CatFlags, char>)
    requires
        cs@.len() >= 1,
    ensures
        r == cluster_flags(cs@, 1, f),
{
    let mut flags = f;
    let mut i: usize = 1;
    while i < cs.len()
        invariant
            1 <= i <= cs@.len(),
            cluster_flags(cs@, 1, f) == cluster_flags(cs@, i as int, flags),
        decreases cs@.len() - i,
    {
        match apply_letter(flags, cs[i]) {
            Some(g) => {
                flags = g;
            },
            None => {
                return Err(cs[i]);
            },
        }
        i = i + 1;
    }
    Ok(flags)
}

/// The ASCII characters of `s` as bytes.
pub open spec fn ascii_bytes(s: Seq<char>) -> Seq<u8> {
    s.map_values(|c: char| c as u8)
}

/// The bytes `cat` writes for the byte `b` of a line.
pub open spec fn shown_byte(b: u8, show_tabs: bool) -> Seq<u8> {
    if show_tabs && b == 9 {
        seq![94u8, 73u8]
    } else if (b < 32 || b == 127) && b != 9 {
        if b == 127 {
            seq![94u8, 0xC2u8, 0xBFu8]
        } else {
            seq![94u8, (b + 64) as u8]
        }
    } else {
        seq![b]
    }
}

pub open spec fn shown_bytes(line: Seq<u8>, show_tabs: bool) -> Seq<u8>
    decreases line.len(),
{
    if line.len() == 0 {
        Seq::empty()
    } else {
        shown_bytes(line.drop_last(), show_tabs) + shown_byte(line.last(), show_tabs)
    }
}

/// What `cat` writes for one line (without its newline), given the number
/// of the next numbered line and whether the line before was blank: the
/// bytes, the next number and whether this line was blank. A blank line
/// after a blank one writes nothing when squeezing.
pub open spec fn line_output(line: Seq<u8>, f: CatFlags, number: nat, last_blank: bool) -> (Seq<u8>, nat, bool) {
    let blank = line.len() == 0;
    if f.squeeze_blank && blank && last_blank {
        (Seq::empty(), number, last_blank)
    } else {
        let numbered = f.number_lines && !(blank && f.squeeze_blank);
        let prefix = if numbered { ascii_bytes(pad_left(decimal(number), 6, ' ')).push(9u8) } else { Seq::empty() };
        let body = shown_bytes(line, f.show_tabs);
        let end = if f.show_ends { seq![36u8] } else { Seq::empty() };
        (prefix + body + end.push(10u8), if numbered { number + 1 } else { number }, blank)
    }
}

/// `cat`'s state between reads: the number of the next numbered line,
/// whether the last line was blank, and the bytes of the unfinished line.
pub struct CatState {
    pub line_number: usize,
    pub last_was_blank: bool,
    pub pending: Vec<u8>,
}

/// What feeding `bytes` does from the state `(number, last_blank,
/// pending)`: the bytes written and the state after.
pub open spec fn feed_output(bytes: Seq<u8>, f: CatFlags, number: nat, last_blank: bool, pending: Seq<u8>) -> (Seq<u8>, nat, bool, Seq<u8>)
    decreases bytes.len(),
{
    if bytes.len() == 0 {
        (Seq::empty(), number, last_blank, pending)
    } else {
        let (out, n, lb, p) = feed_output(bytes.drop_last(), f, number, last_blank, pending);
        if bytes.last() == 10u8 {
            let (o, n2, lb2) = line_output(p, f, n, lb);
            (out + o, n2, lb2, Seq::empty())
        } else {
            (out, n, lb, p.push(bytes.last()))
        }
    }
}

/// Feeding `a` and then `b` writes what feeding `a + b` at once writes and
/// leaves the same state: the output does not depend on how the input was
/// split into reads.
pub proof fn lemma_feed_in_pieces(a: Seq<u8>, b: Seq<u8>, f: CatFlags, number: nat, last_blank: bool, pending: Seq<u8>)
    ensures
        ({
            let r1 = feed_output(a, f, number, last_blank, pending);
            let r2 = feed_output(b, f, r1.1, r1.2, r1.3);
            feed_output(a + b, f, number, last_blank, pending) == (r1.0 + r2.0, r2.1, r2.2, r2.3)
        }),
    decreases b.len(),
{
    let r1 = feed_output(a, f, number, last_blank, pending);
    if b.len() == 0 {
        assert(a + b =~= a);
        assert(r1.0 + Seq::<u8>::empty() =~= r1.0);
    } else {
        lemma_feed_in_pieces(a, b.drop_last(), f, number, last_blank, pending);
        assert((a + b).drop_last() =~= a + b.drop_last());
        assert((a + b).last() == b.last());
        let r2 = feed_output(b.drop_last(), f, r1.1, r1.2, r1.3);
        if b.last() == 10u8 {
            let (o, n2, lb2) = line_output(r2.3, f, r2.1, r2.2);
            assert(r1.0 + r2.0 + o =~= r1.0 + (r2.0 + o));
        }
    }
}

fn push_all(out: &mut Vec<u8>, s: &Vec<u8>)
    ensures
        final(out)@ == old(out)@ + s@,
{
    let mut i: usize = 0;
    let ghost start = out@;
    while i < s.len()
        invariant
            i <= s@.len(),
            out@ == start + s@.subrange(0, i as int),
        decreases s@.len() - i,
    {
        out.push(s[i]);
        assert(s@.subrange(0, i + 1) =~= s@.subrange(0, i as int).push(s@[i as int]));
        i = i + 1;
    }
    assert(s@.subrange(0, s@.len() as int) =~= s@);
}

pub(crate) fn ascii_of(s: &String) -> (r: Vec<u8>)
    requires
        forall|i: int| 0 <= i < s@.len() ==> (#[trigger] s@[i]) as u32 <= 127,
    ensures
        r@ == ascii_bytes(s@),
{
    let cs = chars_of(s.as_str());
    let mut out: Vec<u8> = Vec::new();
    let mut i: usize = 0;
    while i < cs.len()
        invariant
            i <= cs@.len(),
            cs@ == s@,
            forall|k: int| 0 <= k < cs@.len() ==> (#[trigger] cs@[k]) as u32 <= 127,
            out@ == ascii_bytes(cs@.subrange(0, i as int)),
        decreases cs@.len() - i,
    {
        out.push(cs[i] as u8);
        assert(ascii_bytes(cs@.subrange(0, i + 1)) =~= ascii_bytes(cs@.subrange(0, i as int)).push(cs@[i as int] as u8));
        i = i + 1;
    }
    assert(cs@.subrange(0, cs@.len() as int) =~= cs@);
    out
}

impl CatState {
    pub fn new() -> (r: Self)
        ensures
            r.line_number == 1,
            !r.last_was_blank,
            r.pending@ == Seq::<u8>::empty(),
    {
        CatState { line_number: 1, last_was_blank: false, pending: Vec::new() }
    }

    /// The bytes written for one complete line.
    pub fn output_line(&mut self, line: &Vec<u8>, flags: CatFlags) -> (r: Vec<u8>)
        requires
            old(self).line_number < usize::MAX,
        ensures
            (r@, final(self).line_number as nat, final(self).last_was_blank) == line_output(
                line@,
                flags,
                old(self).line_number as nat,
                old(self).last_was_blank,
            ),
            final(self).pending == old(self).pending,
    {
        let blank = line.len() == 0;
        let mut out: Vec<u8> = Vec::new();
        if flags.squeeze_blank && blank && self.last_was_blank {
            return out;
        }
        self.last_was_blank = blank;
        let numbered = flags.number_lines && !(blank && flags.squeeze_blank);
        if numbered {
            let digits = decimal_string(self.line_number as u64);
            let padded = pad_left_string(digits.as_str(), 6, ' ');
            proof {
                crate::text::lemma_decimal_digits(self.line_number as nat);
                assert forall|i: int| 0 <= i < padded@.len() implies (#[trigger] padded@[i]) as u32 <= 127 by {
                    let d = decimal(self.line_number as nat);
                    if d.len() < 6 {
                        if i >= 6 - d.len() {
                            assert(padded@[i] == d[i - (6 - d.len())]);
                        }
                    } else {
                        assert(padded@[i] == d[i]);
                    }
                }
            }
            let prefix = ascii_of(&padded);
            push_all(&mut out, &prefix);
            out.push(9u8);
            self.line_number = self.line_number + 1;
        }
        let ghost head = out@;
        let mut i: usize = 0;
        while i < line.len()
            invariant
                i <= line@.len(),
                out@ == head + shown_bytes(line@.subrange(0, i as int), flags.show_tabs),
            decreases line@.len() - i,
        {
            let b = line[i];
            assert(line@.subrange(0, i + 1).drop_last() =~= line@.subrange(0, i as int));
            if flags.show_tabs && b == 9 {
                out.push(94u8);
                out.push(73u8);
            } else if (b < 32 || b == 127) && b != 9 {
                out.push(94u8);
                if b == 127 {
                    out.push(0xC2u8);
                    out.push(0xBFu8);
                } else {
                    out.push(b + 64);
                }
            } else {
                out.push(b);
            }
            assert(out@ =~= head + shown_bytes(line@.subrange(0, i + 1), flags.show_tabs));
            i = i + 1;
        }
        assert(line@.subrange(0, line@.len() as int) =~= line@);
        if flags.show_ends {
            out.push(36u8);
        }
        out.push(10u8);
        proof {
            let prefix_spec = if numbered {
                ascii_bytes(pad_left(decimal(old(self).line_number as nat), 6, ' ')).push(9u8)
            } else {
                Seq::<u8>::empty()
            };
            let end = if flags.show_ends { seq![36u8] } else { Seq::<u8>::empty() };
            assert(out@ =~= prefix_spec + shown_bytes(line@, flags.show_tabs) + end.push(10u8));
        }
        out
    }

    /// The bytes written for the next `bytes` read: every line they
    /// complete, with the unfinished rest kept for later.
    pub fn feed(&mut self, bytes: &[u8], flags: CatFlags) -> (r: Vec<u8>)
        requires
            old(self).line_number + bytes@.len() < usize::MAX,
        ensures
            (r@, final(self).line_number as nat, final(self).last_was_blank, final(self).pending@) == feed_output(
                bytes@,
                flags,
                old(self).line_number as nat,
                old(self).last_was_blank,
                old(self).pending@,
            ),
            final(self).line_number <= old(self).line_number + bytes@.len(),
    {
        let ghost n0 = self.line_number as nat;
        let ghost lb0 = self.last_was_blank;
        let ghost p0 = self.pending@;
        let mut out: Vec<u8> = Vec::new();
        let mut i: usize = 0;
        while i < bytes.len()
            invariant
                i <= bytes@.len(),
                n0 + bytes@.len() < usize::MAX,
                self.line_number <= n0 + i,
                (out@, self.line_number as nat, self.last_was_blank, self.pending@) == feed_output(
                    bytes@.subrange(0, i as int),
                    flags,
                    n0,
                    lb0,
                    p0,
                ),
            decreases bytes@.len() - i,
        {
            let b = bytes[i];
            assert(bytes@.subrange(0, i + 1).drop_last() =~= bytes@.subrange(0, i as int));
            if b == 10u8 {
                let mut line: Vec<u8> = Vec::new();
                std::mem::swap(&mut line, &mut self.pending);
                let piece = self.output_line(&line, flags);
                push_all(&mut out, &piece);
            } else {
                self.pending.push(b);
            }
            i = i + 1;
        }
        assert(bytes@.subrange(0, bytes@.len() as int) =~= bytes@);
        out
    }

    /// The bytes written at the end of the input for an unfinished line.
    pub fn finish(&mut self, flags: CatFlags) -> (r: Vec<u8>)
        requires
            old(self).line_number < usize::MAX,
        ensures
            old(self).pending@.len() == 0 ==> r@ == Seq::<u8>::empty(),
            old(self).pending@.len() > 0 ==> (r@, final(self).line_number as nat, final(self).last_was_blank)
                == line_output(old(self).pending@, flags, old(self).line_number as nat, old(self).last_was_blank),
            old(self).pending@.len() == 0 ==> final(self).line_number == old(self).line_number
                && final(self).last_was_blank == old(self).last_was_blank,
            final(self).pending@.len() == 0,
    {
        if self.pending.len() == 0 {
            return Vec::new();
        }
        let mut line: Vec<u8> = Vec::new();
        std::mem::swap(&mut line, &mut self.pending);
        self.output_line(&line, flags)
    }
}

} // verus!
