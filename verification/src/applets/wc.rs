//! `wc`: its options, the counting of lines, words, bytes and characters,
//! and the line it prints for each file.

use vstd::prelude::*;
use crate::regex::{char_is_whitespace, whitespace};
use crate::text::{chars_of, decimal, decimal_string, pad_left, pad_left_string, push_char, str_eq};
use crate::applets::cat::strings_view;

verus! {

broadcast use vstd::std_specs::vec::group_vec_axioms;

/// The counts for one input.
#[derive(Debug, Clone, Copy, PartialEq, Eq, Structural)]
pub struct WcCounts {
    pub lines: usize,
    pub words: usize,
    pub bytes: usize,
    pub chars: usize,
}

/// The counting state: the counts so far and whether a word is open.
#[derive(Debug, Clone, Copy, PartialEq, Eq, Structural)]
pub struct WcState {
    pub counts: WcCounts,
    pub in_word: bool,
}

/// The counts after the bytes `bs`, read as `wc` reads them: each byte as
/// the character with its value; a line per `\n`; a word ends at
/// whitespace; every byte below `0x80` is a character.
pub open spec fn counted(bs: Seq<u8>, s: (nat, nat, nat, nat, bool)) -> (nat, nat, nat, nat, bool)
    decreases bs.len(),
{
    if bs.len() == 0 {
        s
    } else {
        let (l, w, b, c, in_word) = counted(bs.drop_last(), s);
        let byte = bs.last();
        let ch = (byte as u32) as char;
        let c2 = if byte < 0x80 { c + 1 } else { c };
        if whitespace(ch) {
            (if byte == 10 { l + 1 } else { l }, if in_word { w + 1 } else { w }, b + 1, c2, false)
        } else {
            (l, w, b + 1, c2, true)
        }
    }
}

/// Counting `a` and then `b` gives the counts of `a + b`: the counts do not
/// depend on how the input was split into reads.
pub proof fn lemma_count_in_pieces(a: Seq<u8>, b: Seq<u8>, s: (nat, nat, nat, nat, bool))
    ensures
        counted(a + b, s) == counted(b, counted(a, s)),
    decreases b.len(),
{
    if b.len() == 0 {
        assert(a + b =~= a);
    } else {
        lemma_count_in_pieces(a, b.drop_last(), s);
        assert((a + b).drop_last() =~= a + b.drop_last());
        assert((a + b).last() == b.last());
    }
}

pub open spec fn state_view(s: WcState) -> (nat, nat, nat, nat, bool) {
    (s.counts.lines as nat, s.counts.words as nat, s.counts.bytes as nat, s.counts.chars as nat, s.in_word)
}

impl WcState {
    pub fn new() -> (r: Self)
        ensures
            state_view(r) == (0nat, 0nat, 0nat, 0nat, false),
    {
        WcState { counts: WcCounts { lines: 0, words: 0, bytes: 0, chars: 0 }, in_word: false }
    }

    /// Counts the next bytes read.
    pub fn feed(&mut self, bytes: &[u8])
        requires
            old(self).counts.bytes + bytes@.len() <= usize::MAX,
            old(self).counts.lines <= old(self).counts.bytes,
            old(self).counts.words <= old(self).counts.bytes,
            old(self).counts.chars <= old(self).counts.bytes,
        ensures
            state_view(*final(self)) == counted(bytes@, state_view(*old(self))),
            final(self).counts.lines <= final(self).counts.bytes,
            final(self).counts.words <= final(self).counts.bytes,
            final(self).counts.chars <= final(self).counts.bytes,
    {
        let ghost s0 = state_view(*self);
        let ghost b0 = self.counts.bytes;
        let mut i: usize = 0;
        while i < bytes.len()
            invariant
                i <= bytes@.len(),
                b0 + bytes@.len() <= usize::MAX,
                self.counts.bytes == b0 + i,
                self.counts.lines <= self.counts.bytes,
                self.counts.words <= self.counts.bytes,
                self.counts.chars <= self.counts.bytes,
                state_view(*self) == counted(bytes@.subrange(0, i as int), s0),
            decreases bytes@.len() - i,
        {
            let byte = bytes[i];
            assert(bytes@.subrange(0, i + 1).drop_last() =~= bytes@.subrange(0, i as int));
            self.counts.bytes = self.counts.bytes + 1;
            if byte < 0x80 {
                self.counts.chars = self.counts.chars + 1;
            }
            let ch = byte as char;
            assert(ch == (byte as u32) as char);
            if char_is_whitespace(ch) {
                if self.in_word {
                    self.counts.words = self.counts.words + 1;
                    self.in_word = false;
                }
                self.in_word = false;
                if byte == 10 {
                    self.counts.lines = self.counts.lines + 1;
                }
            } else {
                self.in_word = true;
            }
            i = i + 1;
        }
        assert(bytes@.subrange(0, bytes@.len() as int) =~= bytes@);
    }

    /// The counts once the input has ended: an open word counts.
    pub fn finish(&self) -> (r: WcCounts)
        requires
            self.counts.words < usize::MAX,
        ensures
            r.lines == self.counts.lines,
            r.bytes == self.counts.bytes,
            r.chars == self.counts.chars,
            r.words == if self.in_word { self.counts.words + 1 } else { self.counts.words as int },
    {
        let mut c = self.counts;
        if self.in_word {
            c.words = c.words + 1;
        }
        c
    }
}

impl WcCounts {
    /// The counts of two inputs added column by column, as for the total.
    pub fn add(self, other: WcCounts) -> (r: WcCounts)
        requires
            self.lines + other.lines <= usize::MAX,
            self.words + other.words <= usize::MAX,
            self.bytes + other.bytes <= usize::MAX,
            self.chars + other.chars <= usize::MAX,
        ensures
            r.lines == self.lines + other.lines,
            r.words == self.words + other.words,
            r.bytes == self.bytes + other.bytes,
            r.chars == self.chars + other.chars,
    {
        WcCounts {
            lines: self.lines + other.lines,
            words: self.words + other.words,
            bytes: self.bytes + other.bytes,
            chars: self.chars + other.chars,
        }
    }
}

/// The inputs `wc` reads: the files named, or standard input (`-`) where
/// none is.
pub fn wc_inputs(files: &Vec<String>) -> (r: Vec<String>)
    ensures
        strings_view(r@) == (if files@.len() == 0 {
            seq!["-"@]
        } else {
            strings_view(files@)
        }),
{
    let mut v: Vec<String> = Vec::new();
    if files.len() == 0 {
        proof {
            reveal_strlit("");
        }
        v.push(crate::text::concat_str("-", ""));
        assert(strings_view(v@) =~= seq!["-"@]);
    } else {
        crate::applets::grep::push_rest(&mut v, files.as_slice(), 0);
        assert(strings_view(files@).subrange(0, files@.len() as int) =~= strings_view(files@));
        assert(Seq::<Seq<char>>::empty() + strings_view(files@) =~= strings_view(files@));
    }
    v
}

/// The name shown after the counts of an input: none for standard input.
pub fn wc_label(file: &str) -> (r: Option<&str>)
    ensures
        r == (if file@ == "-"@ { None } else { Some(file) }),
{
    if str_eq(file, "-") {
        None
    } else {
        Some(file)
    }
}

/// Whether a line of totals follows: where more than one input was named.
pub fn wc_shows_total(inputs: usize) -> (r: bool)
    ensures
        r == (inputs > 1),
{
    inputs > 1
}

/// Which counts `wc` shows.
#[derive(Debug, Clone, Copy, PartialEq, Eq, Structural)]
pub struct WcShow {
    pub lines: bool,
    pub words: bool,
    pub bytes: bool,
    pub chars: bool,
}

/// The columns for the options given: lines and words unless some option
/// narrows them; bytes unless `-m` asks for characters.
pub open spec fn shown(l: bool, w: bool, c: bool, m: bool) -> WcShow {
    let none = !c && !m && !w && !l;
    WcShow { lines: none || l, words: none || w, bytes: !m, chars: m }
}

pub fn columns(count_lines: bool, count_words: bool, count_bytes: bool, count_chars: bool) -> (r: WcShow)
    ensures
        r == shown(count_lines, count_words, count_bytes, count_chars),
{
    let none = !count_bytes && !count_chars && !count_words && !count_lines;
    WcShow { lines: none || count_lines, words: none || count_words, bytes: !count_chars, chars: count_chars }
}

/// A count right-aligned in eight columns.
pub open spec fn column(n: nat) -> Seq<char> {
    pad_left(decimal(n), 8, ' ')
}

/// The columns shown, separated by spaces, then ` name` where there is one.
pub open spec fn counts_line(c: WcCounts, show: WcShow, name: Option<Seq<char>>) -> Seq<char> {
    let parts = Seq::<Seq<char>>::empty()
        .add(if show.lines { seq![column(c.lines as nat)] } else { Seq::empty() })
        .add(if show.words { seq![column(c.words as nat)] } else { Seq::empty() })
        .add(if show.bytes { seq![column(c.bytes as nat)] } else { Seq::empty() })
        .add(if show.chars { seq![column(c.chars as nat)] } else { Seq::empty() });
    let body = crate::applets::echo::join_space(parts);
    match name {
        Some(n) => body + seq![' '] + n,
        None => body,
    }
}

fn add_column(out: &mut String, any: &mut bool, n: usize)
    ensures
        final(out)@ == (if *old(any) { old(out)@ + seq![' '] } else { old(out)@ }) + column(n as nat),
        *final(any),
{
    if *any {
        push_char(out, ' ');
    }
    let d = decimal_string(n as u64);
    let p = pad_left_string(d.as_str(), 8, ' ');
    out.append(p.as_str());
    *any = true;
}

/// The line `wc` prints for one input (or the total).
pub fn print_counts(c: WcCounts, show: WcShow, name: Option<&str>) -> (r: String)
    ensures
        r@ == counts_line(
            c,
            show,
            match name {
                Some(n) => Some(n@),
                None => None,
            },
        ),
{
    let mut out = String::new();
    let mut any = false;
    let ghost parts0 = Seq::<Seq<char>>::empty();
    let ghost p1 = parts0.add(if show.lines { seq![column(c.lines as nat)] } else { Seq::empty() });
    let ghost p2 = p1.add(if show.words { seq![column(c.words as nat)] } else { Seq::empty() });
    let ghost p3 = p2.add(if show.bytes { seq![column(c.bytes as nat)] } else { Seq::empty() });
    let ghost p4 = p3.add(if show.chars { seq![column(c.chars as nat)] } else { Seq::empty() });
    if show.lines {
        add_column(&mut out, &mut any, c.lines);
    }
    assert(out@ == crate::applets::echo::join_space(p1) && any == (p1.len() > 0)) by {
        if show.lines {
            assert(p1 =~= seq![column(c.lines as nat)]);
        } else {
            assert(p1 =~= Seq::<Seq<char>>::empty());
        }
    }
    if show.words {
        add_column(&mut out, &mut any, c.words);
    }
    assert(out@ == crate::applets::echo::join_space(p2) && any == (p2.len() > 0)) by {
        if show.words {
            assert(p2 =~= p1.push(column(c.words as nat)));
            assert(p2.drop_last() =~= p1);
        } else {
            assert(p2 =~= p1);
        }
    }
    if show.bytes {
        add_column(&mut out, &mut any, c.bytes);
    }
    assert(out@ == crate::applets::echo::join_space(p3) && any == (p3.len() > 0)) by {
        if show.bytes {
            assert(p3 =~= p2.push(column(c.bytes as nat)));
            assert(p3.drop_last() =~= p2);
        } else {
            assert(p3 =~= p2);
        }
    }
    if show.chars {
        add_column(&mut out, &mut any, c.chars);
    }
    assert(out@ == crate::applets::echo::join_space(p4)) by {
        if show.chars {
            assert(p4 =~= p3.push(column(c.chars as nat)));
            assert(p4.drop_last() =~= p3);
        } else {
            assert(p4 =~= p3);
        }
    }
    match name {
        Some(n) => {
            push_char(&mut out, ' ');
            out.append(n);
        },
        None => {},
    }
    out
}

/// `wc`'s options: which counts were asked for and the files.
pub struct WcOptions {
    pub count_lines: bool,
    pub count_words: bool,
    pub count_bytes: bool,
    pub count_chars: bool,
    pub files: Vec<String>,
}

/// The flags `(lines, words, bytes, chars)` after the letter `c`.
pub open spec fn wc_letter(f: (bool, bool, bool, bool), c: char) -> Option<(bool, bool, bool, bool)> {
    if c == 'l' {
        Some((true, f.1, f.2, f.3))
    } else if c == 'w' {
        Some((f.0, true, f.2, f.3))
    } else if c == 'c' {
        Some((f.0, f.1, true, f.3))
    } else if c == 'm' {
        Some((f.0, f.1, f.2, true))
    } else {
        None
    }
}

pub open spec fn wc_cluster(a: Seq<char>, i: int, f: (bool, bool, bool, bool)) -> Result<(bool, bool, bool, bool), char>
    decreases a.len() - i,
{
    if i < 0 || i >= a.len() {
        Ok(f)
    } else {
        match wc_letter(f, a[i]) {
            Some(g) => wc_cluster(a, i + 1, g),
            None => Err(a[i]),
        }
    }
}

/// How `wc` reads its arguments from index `k` on; `--lines`, `--words`,
/// `--bytes` and `--chars` stand for their letters, `--` makes the rest
/// files.
pub open spec fn wc_args(args: Seq<Seq<char>>, k: int, f: (bool, bool, bool, bool), files: Seq<Seq<char>>) -> Result<((bool, bool, bool, bool), Seq<Seq<char>>), char>
    decreases args.len() - k,
{
    if k < 0 || k >= args.len() {
        Ok((f, files))
    } else {
        let a = args[k];
        if a == "--lines"@ {
            wc_args(args, k + 1, (true, f.1, f.2, f.3), files)
        } else if a == "--words"@ {
            wc_args(args, k + 1, (f.0, true, f.2, f.3), files)
        } else if a == "--bytes"@ {
            wc_args(args, k + 1, (f.0, f.1, true, f.3), files)
        } else if a == "--chars"@ {
            wc_args(args, k + 1, (f.0, f.1, f.2, true), files)
        } else if a == "--"@ {
            Ok((f, files + args.subrange(k + 1, args.len() as int)))
        } else if a.len() > 1 && a[0] == '-' {
            match wc_cluster(a, 1, f) {
                Ok(g) => wc_args(args, k + 1, g, files),
                Err(c) => Err(c),
            }
        } else {
            wc_args(args, k + 1, f, files.push(a))
        }
    }
}

impl WcOptions {
    /// Reads `wc`'s arguments; an invalid option letter is the error.
    pub fn parse(args: &[String]) -> (r: Result<WcOptions, char>)
        ensures
            match wc_args(strings_view(args@), 0, (false, false, false, false), Seq::empty()) {
                Ok((f, files)) => r matches Ok(o) && (o.count_lines, o.count_words, o.count_bytes, o.count_chars)
                    == f && strings_view(o.files@) == files,
                Err(c) => r == Err::<WcOptions, char>(c),
            },
    {
        let ghost all = strings_view(args@);
        let mut f = (false, false, false, false);
        let mut files: Vec<String> = Vec::new();
        let mut k: usize = 0;
        assert(strings_view(files@) =~= Seq::<Seq<char>>::empty());
        while k < args.len()
            invariant
                k <= args@.len(),
                all == strings_view(args@),
                wc_args(all, 0, (false, false, false, false), Seq::empty()) == wc_args(all, k as int, f, strings_view(files@)),
            decreases args@.len() - k,
        {
            let a = args[k].as_str();
            assert(all[k as int] == a@);
            if str_eq(a, "--lines") {
                f = (true, f.1, f.2, f.3);
            } else if str_eq(a, "--words") {
                f = (f.0, true, f.2, f.3);
            } else if str_eq(a, "--bytes") {
                f = (f.0, f.1, true, f.3);
            } else if str_eq(a, "--chars") {
                f = (f.0, f.1, f.2, true);
            } else if str_eq(a, "--") {
                let ghost base = strings_view(files@);
                let mut j = k + 1;
                while j < args.len()
                    invariant
                        k < j <= args@.len(),
                        all == strings_view(args@),
                        strings_view(files@) == base + all.subrange(k + 1, j as int),
                    decreases args@.len() - j,
                {
                    let ghost before = files@;
                    files.push(args[j].clone());
                    assert(strings_view(files@) =~= strings_view(before).push(all[j as int]));
                    assert(all.subrange(k + 1, j + 1) =~= all.subrange(k + 1, j as int).push(all[j as int]));
                    j = j + 1;
                }
                return Ok(WcOptions { count_lines: f.0, count_words: f.1, count_bytes: f.2, count_chars: f.3, files });
            } else {
                let cs = chars_of(a);
                if cs.len() > 1 && cs[0] == '-' {
                    match wc_cluster_exec(&cs, f) {
                        Ok(g) => {
                            f = g;
                        },
                        Err(c) => {
                            return Err(c);
                        },
                    }
                } else {
                    let ghost before = files@;
                    files.push(args[k].clone());
                    assert(strings_view(files@) =~= strings_view(before).push(a@));
                }
            }
            k = k + 1;
        }
        Ok(WcOptions { count_lines: f.0, count_words: f.1, count_bytes: f.2, count_chars: f.3, files })
    }
}

fn wc_apply_letter(f: (bool, bool, bool, bool), c: char) -> (r: Option<(bool, bool, bool, bool)>)
    ensures
        r == wc_letter(f, c),
{
    if c == 'l' {
        Some((true, f.1, f.2, f.3))
    } else if c == 'w' {
        Some((f.0, true, f.2, f.3))
    } else if c == 'c' {
        Some((f.0, f.1, true, f.3))
    } else if c == 'm' {
        Some((f.0, f.1, f.2, true))
    } else {
        None
    }
}

/// The flags after the letters of the cluster `cs` (from its second
/// character), or the first letter that is no option.
fn wc_cluster_exec(cs: &Vec<char>, f: (bool, bool, bool, bool)) -> (r: Result<(bool, bool, bool, bool), char>)
    requires
        cs@.len() >= 1,
    ensures
        r == wc_cluster(cs@, 1, f),
{
    let mut flags = f;
    let mut i: usize = 1;
    while i < cs.len()
        invariant
            1 <= i <= cs@.len(),
            wc_cluster(cs@, 1, f) == wc_cluster(cs@, i as int, flags),
        decreases cs@.len() - i,
    {
        match wc_apply_letter(flags, cs[i]) {
            Some(g) => {
                flags = g;
            },
            None => {
                return Err(cs[i]);
            },
        }
        i = i + 1;
    }
    Ok(flags)
}

} // verus!
