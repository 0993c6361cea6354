//! `grep`, `egrep` and `fgrep`: their options, the matcher they build, and
//! what they print for each line read and at the end of each input.

use vstd::prelude::*;
use crate::applets::cat::strings_view;
use crate::locale::{contains_chars, contains_seq};
use crate::regex::{regex_matches, Regex, RegexError, RegexSyntax};
use crate::text::{chars_of, concat_str, decimal, decimal_string, push_char, str_eq};

verus! {

broadcast use vstd::std_specs::vec::group_vec_axioms;

/// How the pattern is read: as a regular expression of one syntax, or as a
/// fixed string.
#[derive(Debug, Clone, Copy, PartialEq, Eq, Structural)]
pub enum MatchMode {
    Regex(RegexSyntax),
    Fixed,
}

/// The switches of a `grep` command line, and whether one of `-F`, `-E`,
/// `-G` chose the mode.
#[derive(Debug, Clone, Copy, PartialEq, Eq, Structural)]
pub struct GrepFlags {
    pub mode: MatchMode,
    pub invert_match: bool,
    pub count_only: bool,
    pub list_files: bool,
    pub line_number: bool,
    pub quiet: bool,
    pub literal_mode: bool,
}

#[derive(Debug, Clone)]
pub struct GrepOptions {
    pub mode: MatchMode,
    pub pattern: String,
    pub invert_match: bool,
    pub count_only: bool,
    pub list_files: bool,
    pub line_number: bool,
    pub quiet: bool,
    pub files: Vec<String>,
}

/// Why a command line was refused; each ends the run with status 2.
#[derive(Debug, Clone, Copy, PartialEq, Eq, Structural)]
pub enum GrepUsage {
    MissingArgument(char),
    MissingPattern,
    InvalidOption(char),
}

pub open spec fn start_flags(default_mode: MatchMode) -> GrepFlags {
    GrepFlags {
        mode: default_mode,
        invert_match: false,
        count_only: false,
        list_files: false,
        line_number: false,
        quiet: false,
        literal_mode: false,
    }
}

/// The switches after the option letter `c`, or `None` where `c` is none.
pub open spec fn grep_letter(f: GrepFlags, c: char) -> Option<GrepFlags> {
    if c == 'v' {
        Some(GrepFlags { invert_match: true, ..f })
    } else if c == 'c' {
        Some(GrepFlags { count_only: true, ..f })
    } else if c == 'l' {
        Some(GrepFlags { list_files: true, ..f })
    } else if c == 'n' {
        Some(GrepFlags { line_number: true, ..f })
    } else if c == 'q' {
        Some(GrepFlags { quiet: true, ..f })
    } else if c == 'F' {
        Some(GrepFlags { mode: MatchMode::Fixed, literal_mode: true, ..f })
    } else if c == 'E' {
        Some(GrepFlags { mode: MatchMode::Regex(RegexSyntax::Extended), literal_mode: true, ..f })
    } else if c == 'G' {
        Some(GrepFlags { mode: MatchMode::Regex(RegexSyntax::Basic), literal_mode: true, ..f })
    } else {
        None
    }
}

/// The switches after the letters of a cluster from position `i`, or the
/// first letter that is no option.
pub open spec fn grep_cluster(a: Seq<char>, i: int, f: GrepFlags) -> Result<GrepFlags, char>
    decreases a.len() - i,
{
    if i < 0 || i >= a.len() {
        Ok(f)
    } else {
        match grep_letter(f, a[i]) {
            Some(g) => grep_cluster(a, i + 1, g),
            None => Err(a[i]),
        }
    }
}

/// How `grep` reads its arguments from index `k` on: the switches, the
/// pattern if one was given, and the files. An option given alone counts
/// wherever it stands; a cluster of letters counts only before the pattern;
/// the first other argument is the pattern, the rest are files; `-e` takes
/// the next argument as the pattern; `--` ends the options.
pub open spec fn grep_args(
    args: Seq<Seq<char>>,
    k: int,
    f: GrepFlags,
    pattern: Option<Seq<char>>,
    files: Seq<Seq<char>>,
) -> Result<(GrepFlags, Option<Seq<char>>, Seq<Seq<char>>), GrepUsage>
    decreases args.len() - k,
{
    if k < 0 || k >= args.len() {
        Ok((f, pattern, files))
    } else {
        let a = args[k];
        if a == "-e"@ {
            if k + 1 < args.len() {
                grep_args(args, k + 2, f, Some(args[k + 1]), files)
            } else {
                Err(GrepUsage::MissingArgument('e'))
            }
        } else if a == "--"@ {
            match pattern {
                None => if k + 1 < args.len() {
                    Ok((f, Some(args[k + 1]), files + args.subrange(k + 2, args.len() as int)))
                } else {
                    Err(GrepUsage::MissingPattern)
                },
                Some(_) => Ok((f, pattern, files + args.subrange(k + 1, args.len() as int))),
            }
        } else if a.len() == 2 && a[0] == '-' && grep_letter(f, a[1]) is Some {
            grep_args(args, k + 1, grep_letter(f, a[1])->0, pattern, files)
        } else if a.len() > 1 && a[0] == '-' && pattern is None {
            match grep_cluster(a, 1, f) {
                Ok(g) => grep_args(args, k + 1, g, pattern, files),
                Err(c) => Err(GrepUsage::InvalidOption(c)),
            }
        } else if pattern is None {
            grep_args(args, k + 1, f, Some(a), files)
        } else {
            grep_args(args, k + 1, f, pattern, files.push(a))
        }
    }
}

/// The whole command line: the switches (with the default mode unless `-F`,
/// `-E` or `-G` chose one), the pattern and the files.
pub open spec fn grep_parse(args: Seq<Seq<char>>, default_mode: MatchMode) -> Result<(GrepFlags, Seq<char>, Seq<Seq<char>>), GrepUsage> {
    match grep_args(args, 0, start_flags(default_mode), None, Seq::empty()) {
        Err(e) => Err(e),
        Ok((f, pattern, files)) => match pattern {
            None => Err(GrepUsage::MissingPattern),
            Some(p) => Ok((if f.literal_mode { f } else { GrepFlags { mode: default_mode, ..f } }, p, files)),
        },
    }
}

pub open spec fn option_view(o: Option<String>) -> Option<Seq<char>> {
    match o {
        Some(s) => Some(s@),
        None => None,
    }
}

fn apply_letter(f: GrepFlags, c: char) -> (r: Option<GrepFlags>)
    ensures
        r == grep_letter(f, c),
{
    if c == 'v' {
        Some(GrepFlags { invert_match: true, ..f })
    } else if c == 'c' {
        Some(GrepFlags { count_only: true, ..f })
    } else if c == 'l' {
        Some(GrepFlags { list_files: true, ..f })
    } else if c == 'n' {
        Some(GrepFlags { line_number: true, ..f })
    } else if c == 'q' {
        Some(GrepFlags { quiet: true, ..f })
    } else if c == 'F' {
        Some(GrepFlags { mode: MatchMode::Fixed, literal_mode: true, ..f })
    } else if c == 'E' {
        Some(GrepFlags { mode: MatchMode::Regex(RegexSyntax::Extended), literal_mode: true, ..f })
    } else if c == 'G' {
        Some(GrepFlags { mode: MatchMode::Regex(RegexSyntax::Basic), literal_mode: true, ..f })
    } else {
        None
    }
}

fn apply_cluster(cs: &Vec<char>, f: GrepFlags) -> (r: Result<GrepFlags, char>)
    requires
        cs@.len() >= 1,
    ensures
        r == grep_cluster(cs@, 1, f),
{
    let mut flags = f;
    let mut i: usize = 1;
    while i < cs.len()
        invariant
            1 <= i <= cs@.len(),
            grep_cluster(cs@, 1, f) == grep_cluster(cs@, i as int, flags),
        decreases cs@.len() - i,
    {
        match apply_letter(flags, cs[i]) {
            Some(g) => {
                flags = g;
            },
            None => {
                return Err(cs[i]);
            },
        }
        i = i + 1;
    }
    Ok(flags)
}

/// Appends `args[from..]` to `files`.
pub(crate) fn push_rest(files: &mut Vec<String>, args: &[String], from: usize)
    requires
        from <= args@.len(),
    ensures
        strings_view(final(files)@) == strings_view(old(files)@) + strings_view(args@).subrange(from as int, args@.len() as int),
{
    let ghost base = strings_view(files@);
    let ghost all = strings_view(args@);
    let mut j = from;
    while j < args.len()
        invariant
            from <= j <= args@.len(),
            all == strings_view(args@),
            strings_view(files@) == base + all.subrange(from as int, j as int),
        decreases args@.len() - j,
    {
        let ghost before = files@;
        files.push(args[j].clone());
        assert(strings_view(files@) =~= strings_view(before).push(all[j as int]));
        assert(all.subrange(from as int, j + 1) =~= all.subrange(from as int, j as int).push(all[j as int]));
        j = j + 1;
    }
}

impl GrepOptions {
    /// Reads a `grep` command line; `default_mode` is the mode of the applet
    /// that was called (`grep`, `egrep` or `fgrep`).
    pub fn parse(args: &[String], default_mode: MatchMode) -> (r: Result<GrepOptions, GrepUsage>)
        ensures
            match grep_parse(strings_view(args@), default_mode) {
                Ok((f, p, files)) => r matches Ok(o) && o.mode == f.mode && o.invert_match == f.invert_match
                    && o.count_only == f.count_only && o.list_files == f.list_files
                    && o.line_number == f.line_number && o.quiet == f.quiet && o.pattern@ == p
                    && strings_view(o.files@) == files,
                Err(e) => r == Err::<GrepOptions, GrepUsage>(e),
            },
    {
        let ghost all = strings_view(args@);
        let mut f = GrepFlags {
            mode: default_mode,
            invert_match: false,
            count_only: false,
            list_files: false,
            line_number: false,
            quiet: false,
            literal_mode: false,
        };
        let mut pattern: Option<String> = None;
        let mut files: Vec<String> = Vec::new();
        let n = args.len();
        let mut k: usize = 0;
        assert(strings_view(files@) =~= Seq::<Seq<char>>::empty());
        while k < n
            invariant
                k <= n,
                n == args@.len(),
                all == strings_view(args@),
                grep_args(all, 0, start_flags(default_mode), None, Seq::empty()) == grep_args(
                    all,
                    k as int,
                    f,
                    option_view(pattern),
                    strings_view(files@),
                ),
            decreases n - k,
        {
            let a = args[k].as_str();
            assert(all[k as int] == a@);
            if str_eq(a, "-e") {
                if k + 1 < n {
                    assert(all[k + 1] == args@[k + 1]@);
                    pattern = Some(args[k + 1].clone());
                    k = k + 2;
                } else {
                    return Err(GrepUsage::MissingArgument('e'));
                }
            } else if str_eq(a, "--") {
                let from: usize;
                if pattern.is_none() {
                    if k + 1 < n {
                        assert(all[k + 1] == args@[k + 1]@);
                        pattern = Some(args[k + 1].clone());
                        from = k + 2;
                    } else {
                        return Err(GrepUsage::MissingPattern);
                    }
                } else {
                    from = k + 1;
                }
                push_rest(&mut files, args, from);
                k = n;
            } else {
                let cs = chars_of(a);
                let single = if cs.len() == 2 && cs[0] == '-' {
                    apply_letter(f, cs[1])
                } else {
                    None
                };
                match single {
                    Some(g) => {
                        f = g;
                    },
                    None => {
                        if cs.len() > 1 && cs[0] == '-' && pattern.is_none() {
                            match apply_cluster(&cs, f) {
                                Ok(g) => {
                                    f = g;
                                },
                                Err(c) => {
                                    return Err(GrepUsage::InvalidOption(c));
                                },
                            }
                        } else if pattern.is_none() {
                            pattern = Some(args[k].clone());
                        } else {
                            let ghost before = files@;
                            files.push(args[k].clone());
                            assert(strings_view(files@) =~= strings_view(before).push(a@));
                        }
                    },
                }
                k = k + 1;
            }
        }
        match pattern {
            None => Err(GrepUsage::MissingPattern),
            Some(p) => {
                let mode = if f.literal_mode {
                    f.mode
                } else {
                    default_mode
                };
                Ok(GrepOptions {
                    mode,
                    pattern: p,
                    invert_match: f.invert_match,
                    count_only: f.count_only,
                    list_files: f.list_files,
                    line_number: f.line_number,
                    quiet: f.quiet,
                    files,
                })
            },
        }
    }
}

pub open spec fn usage_message(e: GrepUsage) -> Seq<char> {
    match e {
        GrepUsage::MissingArgument(c) => "grep: option requires an argument -- '"@ + seq![c, '\''],
        GrepUsage::MissingPattern => "grep: missing pattern"@,
        GrepUsage::InvalidOption(c) => "grep: invalid option -- '"@ + seq![c, '\''],
    }
}

impl GrepUsage {
    /// The line written to standard error.
    pub fn message(&self) -> (r: String)
        ensures
            r@ == usage_message(*self),
    {
        proof {
            reveal_strlit("");
            reveal_strlit("grep: option requires an argument -- '");
            reveal_strlit("grep: invalid option -- '");
        }
        match self {
            GrepUsage::MissingArgument(c) => {
                let mut s = concat_str("grep: option requires an argument -- '", "");
                push_char(&mut s, *c);
                push_char(&mut s, '\'');
                s
            },
            GrepUsage::MissingPattern => concat_str("grep: missing pattern", ""),
            GrepUsage::InvalidOption(c) => {
                let mut s = concat_str("grep: invalid option -- '", "");
                push_char(&mut s, *c);
                push_char(&mut s, '\'');
                s
            },
        }
    }

    /// The exit status of a refused command line.
    pub fn code(&self) -> (r: i32)
        ensures
            r == 2,
    {
        2
    }
}

/// What a line is tested with: a compiled expression or a fixed string.
pub enum Matcher {
    Regex(Regex),
    Fixed(String),
}

/// Whether the matcher accepts `line`: the expression matches some part of
/// it, or the fixed string occurs in it.
pub open spec fn accepts(m: Matcher, line: Seq<char>) -> bool {
    match m {
        Matcher::Regex(r) => regex_matches(r.spec_ast(), line),
        Matcher::Fixed(p) => contains_seq(line, p@),
    }
}

impl Matcher {
    pub fn is_match(&self, line: &str) -> (r: bool)
        requires
            line@.len() < usize::MAX,
        ensures
            r == accepts(*self, line@),
    {
        match self {
            Matcher::Regex(regex) => regex.is_match(line),
            Matcher::Fixed(pattern) => {
                let hay = chars_of(line);
                let needle = chars_of(pattern.as_str());
                contains_chars(&hay, &needle)
            },
        }
    }
}

/// The matcher for the options' pattern and mode; an expression that does
/// not parse gives its error.
pub fn build_matcher(options: &GrepOptions) -> (r: Result<Matcher, RegexError>)
    ensures
        match options.mode {
            MatchMode::Regex(syntax) => match crate::regex::spec_parse(options.pattern@, syntax) {
                Ok(a) => r matches Ok(Matcher::Regex(x)) && x.spec_ast() == a,
                Err(e) => r == Err::<Matcher, RegexError>(e),
            },
            MatchMode::Fixed => r matches Ok(Matcher::Fixed(p)) && p@ == options.pattern@,
        },
{
    match options.mode {
        MatchMode::Regex(syntax) => match Regex::new(options.pattern.as_str(), syntax) {
            Ok(x) => Ok(Matcher::Regex(x)),
            Err(e) => Err(e),
        },
        MatchMode::Fixed => Ok(Matcher::Fixed(options.pattern.clone())),
    }
}

/// The inputs: the files named, or standard input (`-`) where none is.
pub fn grep_inputs(options: &GrepOptions) -> (r: Vec<String>)
    ensures
        strings_view(r@) == (if options.files@.len() == 0 {
            seq!["-"@]
        } else {
            strings_view(options.files@)
        }),
{
    if options.files.len() == 0 {
        let mut v: Vec<String> = Vec::new();
        proof {
            reveal_strlit("");
        }
        v.push(concat_str("-", ""));
        assert(strings_view(v@) =~= seq!["-"@]);
        v
    } else {
        let mut v: Vec<String> = Vec::new();
        push_rest(&mut v, options.files.as_slice(), 0);
        assert(strings_view(options.files@).subrange(0, options.files@.len() as int) =~= strings_view(options.files@));
        assert(Seq::<Seq<char>>::empty() + strings_view(options.files@) =~= strings_view(options.files@));
        v
    }
}

/// Whether reading stops after an input: under `-q`, as soon as one input
/// had a selected line.
pub fn grep_stops_after(quiet: bool, input_matched: bool) -> (r: bool)
    ensures
        r == (quiet && input_matched),
{
    quiet && input_matched
}

/// The exit status: 2 after an error, else 0 where some line was selected,
/// else 1.
pub fn grep_status(had_error: bool, matched_any: bool) -> (r: i32)
    ensures
        r == (if had_error {
            2int
        } else if matched_any {
            0int
        } else {
            1int
        }),
{
    if had_error {
        2
    } else if matched_any {
        0
    } else {
        1
    }
}

/// `line` without one final newline.
pub open spec fn without_newline(line: Seq<char>) -> Seq<char> {
    if line.len() > 0 && line.last() == '\n' {
        line.drop_last()
    } else {
        line
    }
}

/// The prefix naming the input where several are searched.
pub open spec fn file_label(multi_file: bool, name: Seq<char>) -> Seq<char> {
    if multi_file {
        name + ":"@
    } else {
        Seq::empty()
    }
}

/// A selected line as printed: the input's name where several are
/// searched, the line number with `-n`, the line, and a newline where the
/// line had none.
pub open spec fn shown_line(o: GrepOptions, multi_file: bool, name: Seq<char>, index: nat, line: Seq<char>) -> Seq<char> {
    file_label(multi_file, name) + (if o.line_number {
        decimal(index) + ":"@
    } else {
        Seq::empty()
    }) + line + (if line.len() > 0 && line.last() == '\n' {
        Seq::empty()
    } else {
        "\n"@
    })
}

/// One line read: the new (line number, selected count, listed) and what
/// is printed, or `None` where `-q` stops at the first selected line.
pub open spec fn scan_step(
    o: GrepOptions,
    m: Matcher,
    multi_file: bool,
    name: Seq<char>,
    s: (nat, nat, bool),
    line: Seq<char>,
) -> ((nat, nat, bool), Option<Seq<char>>) {
    let index = s.0 + 1;
    let selected = accepts(m, without_newline(line)) != o.invert_match;
    if !selected {
        ((index, s.1, s.2), Some(Seq::empty()))
    } else if o.quiet {
        ((index, s.1 + 1, s.2), None)
    } else if o.list_files {
        ((index, s.1 + 1, true), Some(if s.2 { Seq::empty() } else { name + "\n"@ }))
    } else if o.count_only {
        ((index, s.1 + 1, s.2), Some(Seq::empty()))
    } else {
        ((index, s.1 + 1, s.2), Some(shown_line(o, multi_file, name, index, line)))
    }
}

/// What one line read makes `grep` do.
pub enum GrepStep {
    /// Write this text (possibly none) and read on.
    Print(String),
    /// A line was selected under `-q`: stop with success.
    Matched,
}

/// The state of `grep` over one input: lines read, lines selected, and
/// whether the input's name was printed under `-l`.
pub struct GrepScan {
    pub line_index: usize,
    pub match_count: usize,
    pub listed_file: bool,
}

pub open spec fn scan_view(s: GrepScan) -> (nat, nat, bool) {
    (s.line_index as nat, s.match_count as nat, s.listed_file)
}

impl GrepScan {
    pub fn new() -> (r: Self)
        ensures
            scan_view(r) == (0nat, 0nat, false),
    {
        GrepScan { line_index: 0, match_count: 0, listed_file: false }
    }

    /// Takes one line as read (with its newline, if it had one); `name` is
    /// the input's name (`-` for standard input).
    pub fn step(&mut self, line: &str, matcher: &Matcher, options: &GrepOptions, multi_file: bool, name: &str) -> (r: GrepStep)
        requires
            old(self).line_index < usize::MAX,
            old(self).match_count <= old(self).line_index,
            line@.len() < usize::MAX,
        ensures
            final(self).match_count <= final(self).line_index,
            ({
                let (s, out) = scan_step(*options, *matcher, multi_file, name@, scan_view(*old(self)), line@);
                &&& scan_view(*final(self)) == s
                &&& match out {
                    Some(t) => r matches GrepStep::Print(p) && p@ == t,
                    None => r is Matched,
                }
            }),
    {
        self.line_index = self.line_index + 1;
        let cs = chars_of(line);
        let n = cs.len();
        let ends_newline = n > 0 && cs[n - 1] == '\n';
        let printable = if ends_newline {
            crate::text::string_of_range(&cs, 0, n - 1)
        } else {
            crate::text::string_of_range(&cs, 0, n)
        };
        proof {
            if ends_newline {
                assert(printable@ =~= without_newline(line@));
            } else {
                assert(printable@ =~= without_newline(line@));
            }
        }
        let is_match = matcher.is_match(printable.as_str());
        let selected = if options.invert_match {
            !is_match
        } else {
            is_match
        };
        if !selected {
            return GrepStep::Print(String::new());
        }
        self.match_count = self.match_count + 1;
        if options.quiet {
            return GrepStep::Matched;
        }
        if options.list_files {
            if !self.listed_file {
                self.listed_file = true;
                proof {
                    reveal_strlit("");
                    reveal_strlit("\n");
                }
                let mut s = concat_str(name, "");
                push_char(&mut s, '\n');
                return GrepStep::Print(s);
            }
            return GrepStep::Print(String::new());
        }
        if options.count_only {
            return GrepStep::Print(String::new());
        }
        let mut out = String::new();
        if multi_file {
            out = concat_str(name, ":");
        }
        if options.line_number {
            let digits = decimal_string(self.line_index as u64);
            out.append(digits.as_str());
            push_char(&mut out, ':');
        }
        out.append(line);
        if !ends_newline {
            push_char(&mut out, '\n');
        }
        proof {
            reveal_strlit(":");
            reveal_strlit("\n");
            let o = *options;
            let idx = self.line_index as nat;
            assert(out@ =~= shown_line(o, multi_file, name@, idx, line@));
        }
        GrepStep::Print(out)
    }

    /// What is printed at the end of an input (the count, under `-c`) and
    /// whether any line was selected.
    pub fn finish(&self, options: &GrepOptions, multi_file: bool, name: &str) -> (r: (String, bool))
        ensures
            r.0@ == (if options.count_only {
                file_label(multi_file, name@) + decimal(self.match_count as nat) + "\n"@
            } else {
                Seq::empty()
            }),
            r.1 == (self.match_count > 0),
    {
        let mut out = String::new();
        if options.count_only {
            if multi_file {
                out = concat_str(name, ":");
            }
            let digits = decimal_string(self.match_count as u64);
            out.append(digits.as_str());
            push_char(&mut out, '\n');
            proof { reveal_strlit("\n"); }
            assert(out@ =~= file_label(multi_file, name@) + decimal(self.match_count as nat) + "\n"@);
        }
        (out, self.match_count > 0)
    }
}

} // verus!
