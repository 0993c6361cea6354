//! `head` and `tail`: their options (a line count and one switch), the
//! numbered line of `head -n`, and the window of last lines that `tail`
//! keeps.

use vstd::prelude::*;
use crate::applets::cat::strings_view;
use crate::applets::lines::views;
use crate::text::{
    chars_of, concat_str, decimal, decimal_string, pad_left, pad_left_string, parse_unsigned, parse_usize,
    push_char, str_eq, string_of_range,
};

verus! {

broadcast use vstd::std_specs::vec::group_vec_axioms;

/// The options of `head` or `tail`: the applet's switch (`head -n`'s
/// numbering, `tail -f`'s following), the number of lines, and the files.
#[derive(Debug, Clone)]
pub struct LineCountOptions {
    pub switch: bool,
    pub count: usize,
    pub files: Vec<String>,
}

/// Why a command line was refused; each ends the run with status 1.
#[derive(Debug, Clone)]
pub enum CountUsage {
    InvalidNumber(String),
    MissingArgument,
    InvalidOption(char),
}

/// A refusal, with its text as a sequence.
pub enum UsageView {
    InvalidNumber(Seq<char>),
    MissingArgument,
    InvalidOption(char),
}

pub open spec fn usage_view(e: CountUsage) -> UsageView {
    match e {
        CountUsage::InvalidNumber(s) => UsageView::InvalidNumber(s@),
        CountUsage::MissingArgument => UsageView::MissingArgument,
        CountUsage::InvalidOption(c) => UsageView::InvalidOption(c),
    }
}

/// The first character of `s` from position `i` that is not `letter`.
pub open spec fn first_other(s: Seq<char>, i: int, letter: char) -> Option<char>
    decreases s.len() - i,
{
    if i < 0 || i >= s.len() {
        None
    } else if s[i] != letter {
        Some(s[i])
    } else {
        first_other(s, i + 1, letter)
    }
}

/// How `head` (`letter` `n`, no long switch) or `tail` (`letter` `f`, long
/// switch `--follow`) reads its arguments from index `k` on: `-n COUNT`
/// sets the count; `-` and a number sets it too; a cluster of the switch's
/// letter sets the switch; `--` makes the rest files; anything else is a
/// file.
pub open spec fn count_args(
    args: Seq<Seq<char>>,
    k: int,
    letter: char,
    long_switch: Option<Seq<char>>,
    st: (bool, nat),
    files: Seq<Seq<char>>,
) -> Result<((bool, nat), Seq<Seq<char>>), UsageView>
    decreases args.len() - k,
{
    if k < 0 || k >= args.len() {
        Ok((st, files))
    } else {
        let a = args[k];
        if long_switch == Some(a) {
            count_args(args, k + 1, letter, long_switch, (true, st.1), files)
        } else if a == "-n"@ {
            if k + 1 < args.len() {
                match parse_unsigned(args[k + 1], usize::MAX as nat) {
                    Some(v) => count_args(args, k + 2, letter, long_switch, (st.0, v), files),
                    None => Err(UsageView::InvalidNumber(args[k + 1])),
                }
            } else {
                Err(UsageView::MissingArgument)
            }
        } else if a == "--"@ {
            Ok((st, files + args.subrange(k + 1, args.len() as int)))
        } else if a.len() > 1 && a[0] == '-' {
            match parse_unsigned(a.skip(1), usize::MAX as nat) {
                Some(v) => count_args(args, k + 1, letter, long_switch, (st.0, v), files),
                None => match first_other(a, 1, letter) {
                    Some(c) => Err(UsageView::InvalidOption(c)),
                    None => count_args(args, k + 1, letter, long_switch, (true, st.1), files),
                },
            }
        } else {
            count_args(args, k + 1, letter, long_switch, st, files.push(a))
        }
    }
}

pub(crate) fn first_other_exec(cs: &Vec<char>, letter: char) -> (r: Option<char>)
    ensures
        r == first_other(cs@, 1, letter),
{
    let mut i: usize = 1;
    while i < cs.len()
        invariant
            1 <= i,
            first_other(cs@, 1, letter) == first_other(cs@, i as int, letter),
        decreases cs@.len() - i,
    {
        if cs[i] != letter {
            return Some(cs[i]);
        }
        i = i + 1;
    }
    None
}

/// Reads the arguments of `head` (letter `n`) or `tail` (letter `f`,
/// `long_switch` `--follow`); the count is 10 unless one is given.
pub fn parse_count_args(args: &[String], letter: char, long_switch: Option<&str>) -> (r: Result<LineCountOptions, CountUsage>)
    ensures
        match count_args(
            strings_view(args@),
            0,
            letter,
            match long_switch {
                Some(s) => Some(s@),
                None => None,
            },
            (false, 10),
            Seq::empty(),
        ) {
            Ok((st, files)) => r matches Ok(o) && o.switch == st.0 && o.count == st.1 && strings_view(o.files@)
                == files,
            Err(e) => r matches Err(x) && usage_view(x) == e,
        },
{
    let ghost all = strings_view(args@);
    let ghost long = match long_switch {
        Some(s) => Some(s@),
        None => None,
    };
    let mut switch = false;
    let mut count: usize = 10;
    let mut files: Vec<String> = Vec::new();
    let n = args.len();
    let mut k: usize = 0;
    assert(strings_view(files@) =~= Seq::<Seq<char>>::empty());
    while k < n
        invariant
            k <= n,
            n == args@.len(),
            all == strings_view(args@),
            long == (match long_switch {
                Some(s) => Some(s@),
                None => None::<Seq<char>>,
            }),
            count_args(all, 0, letter, long, (false, 10), Seq::empty()) == count_args(
                all,
                k as int,
                letter,
                long,
                (switch, count as nat),
                strings_view(files@),
            ),
        decreases n - k,
    {
        let a = args[k].as_str();
        assert(all[k as int] == a@);
        let is_long = match long_switch {
            Some(s) => str_eq(a, s),
            None => false,
        };
        if is_long {
            switch = true;
            k = k + 1;
        } else if str_eq(a, "-n") {
            if k + 1 < n {
                assert(all[k + 1] == args@[k + 1]@);
                match parse_usize(args[k + 1].as_str()) {
                    Some(v) => {
                        count = v;
                        k = k + 2;
                    },
                    None => {
                        return Err(CountUsage::InvalidNumber(args[k + 1].clone()));
                    },
                }
            } else {
                return Err(CountUsage::MissingArgument);
            }
        } else if str_eq(a, "--") {
            let ghost base = strings_view(files@);
            let mut j = k + 1;
            while j < n
                invariant
                    k < j <= n,
                    n == args@.len(),
                    all == strings_view(args@),
                    strings_view(files@) == base + all.subrange(k + 1, j as int),
                decreases n - j,
            {
                let ghost before = files@;
                files.push(args[j].clone());
                assert(strings_view(files@) =~= strings_view(before).push(all[j as int]));
                assert(all.subrange(k + 1, j + 1) =~= all.subrange(k + 1, j as int).push(all[j as int]));
                j = j + 1;
            }
            return Ok(LineCountOptions { switch, count, files });
        } else {
            let cs = chars_of(a);
            if cs.len() > 1 && cs[0] == '-' {
                let rest = string_of_range(&cs, 1, cs.len());
                assert(rest@ =~= a@.skip(1));
                match parse_usize(rest.as_str()) {
                    Some(v) => {
                        count = v;
                    },
                    None => match first_other_exec(&cs, letter) {
                        Some(c) => {
                            return Err(CountUsage::InvalidOption(c));
                        },
                        None => {
                            switch = true;
                        },
                    },
                }
            } else {
                let ghost before = files@;
                files.push(args[k].clone());
                assert(strings_view(files@) =~= strings_view(before).push(a@));
            }
            k = k + 1;
        }
    }
    Ok(LineCountOptions { switch, count, files })
}

pub open spec fn count_usage_message(applet: Seq<char>, e: UsageView) -> Seq<char> {
    match e {
        UsageView::InvalidNumber(s) => applet + ": invalid number of lines: '"@ + s + "'"@,
        UsageView::MissingArgument => applet + ": option requires an argument -- 'n'"@,
        UsageView::InvalidOption(c) => applet + ": invalid option -- '"@ + seq![c, '\''],
    }
}

impl CountUsage {
    /// The line written to standard error by the applet named `applet`.
    pub fn message(&self, applet: &str) -> (r: String)
        ensures
            r@ == count_usage_message(applet@, usage_view(*self)),
    {
        match self {
            CountUsage::InvalidNumber(s) => {
                let mut out = concat_str(applet, ": invalid number of lines: '");
                out.append(s.as_str());
                out.append("'");
                out
            },
            CountUsage::MissingArgument => concat_str(applet, ": option requires an argument -- 'n'"),
            CountUsage::InvalidOption(c) => {
                let mut out = concat_str(applet, ": invalid option -- '");
                push_char(&mut out, *c);
                push_char(&mut out, '\'');
                assert(out@ =~= count_usage_message(applet@, usage_view(*self)));
                out
            },
        }
    }

    pub fn code(&self) -> (r: i32)
        ensures
            r == 1,
    {
        1
    }
}

/// A line as `head` prints it: with `-n`, its number right-aligned in six
/// columns and a tab before it.
pub open spec fn head_line_text(line: Seq<char>, line_num: nat, number_lines: bool) -> Seq<char> {
    if number_lines {
        pad_left(decimal(line_num), 6, ' ') + "\t"@ + line
    } else {
        line
    }
}

pub fn head_line(line: &str, line_num: u64, number_lines: bool) -> (r: String)
    ensures
        r@ == head_line_text(line@, line_num as nat, number_lines),
{
    if number_lines {
        let d = decimal_string(line_num);
        let mut out = pad_left_string(d.as_str(), 6, ' ');
        out.append("\t");
        out.append(line);
        out
    } else {
        proof {
            reveal_strlit("");
        }
        concat_str(line, "")
    }
}

/// The last `count` lines of `s` (all of them where there are fewer).
pub open spec fn last_lines(s: Seq<Seq<char>>, count: nat) -> Seq<Seq<char>> {
    if s.len() > count {
        s.skip(s.len() - count)
    } else {
        s
    }
}

/// The lines `tail` keeps while it reads: never more than `count`.
pub struct TailWindow {
    lines: Vec<String>,
    count: usize,
}

impl TailWindow {
    pub closed spec fn view_lines(&self) -> Seq<Seq<char>> {
        views(self.lines@)
    }

    pub closed spec fn limit(&self) -> nat {
        self.count as nat
    }

    pub closed spec fn wf(&self) -> bool {
        self.lines@.len() <= self.count
    }

    pub fn new(count: usize) -> (r: Self)
        ensures
            r.wf(),
            r.view_lines() == Seq::<Seq<char>>::empty(),
            r.limit() == count,
    {
        let w = TailWindow { lines: Vec::new(), count };
        assert(views(w.lines@) =~= Seq::<Seq<char>>::empty());
        w
    }

    /// Takes the next line read: the window is the last `count` lines of
    /// what it held followed by `line`.
    pub fn push_line(&mut self, line: &str)
        requires
            old(self).wf(),
        ensures
            final(self).wf(),
            final(self).limit() == old(self).limit(),
            final(self).view_lines() == last_lines(old(self).view_lines().push(line@), old(self).limit()),
    {
        let ghost before = views(self.lines@);
        self.lines.push(concat_str(line, ""));
        proof {
            reveal_strlit("");
            assert(views(self.lines@) =~= before.push(line@));
        }
        if self.lines.len() > self.count {
            let ghost full = views(self.lines@);
            self.lines.remove(0);
            assert(views(self.lines@) =~= full.skip(1));
        }
    }

    /// The lines kept, oldest first.
    pub fn lines(&self) -> (r: Vec<String>)
        ensures
            views(r@) == self.view_lines(),
    {
        let mut out: Vec<String> = Vec::new();
        let mut j: usize = 0;
        while j < self.lines.len()
            invariant
                j <= self.lines@.len(),
                views(out@) == views(self.lines@).subrange(0, j as int),
            decreases self.lines@.len() - j,
        {
            let ghost before = out@;
            out.push(self.lines[j].clone());
            assert(views(out@) =~= views(before).push(self.lines@[j as int]@));
            assert(views(self.lines@).subrange(0, j + 1) =~= views(self.lines@).subrange(0, j as int).push(
                self.lines@[j as int]@,
            ));
            j = j + 1;
        }
        assert(views(self.lines@).subrange(0, self.lines@.len() as int) =~= views(self.lines@));
        out
    }
}

/// Reading a line into a window of the last `count` lines of `s` gives the
/// last `count` lines of `s` followed by that line: a window fed line by
/// line always holds the last `count` lines read.
pub proof fn lemma_window_keeps_last_lines(s: Seq<Seq<char>>, line: Seq<char>, count: nat)
    ensures
        last_lines(last_lines(s, count).push(line), count) == last_lines(s.push(line), count),
{
    let w = last_lines(s, count);
    if s.len() > count {
        assert(w.len() == count);
        if count > 0 {
            assert(w.push(line).skip(1) =~= s.push(line).skip(s.push(line).len() - count));
        } else {
            assert(w.push(line).skip(1) =~= Seq::<Seq<char>>::empty());
            assert(s.push(line).skip(s.push(line).len() - count) =~= Seq::<Seq<char>>::empty());
        }
    } else if s.len() == count {
        assert(w.push(line).skip(1) =~= s.push(line).skip(1));
    }
}

/// The line `head` and `tail` print before an input where more than one is
/// named: `==> name <==`, after an empty line for every input but the first.
pub fn input_header(inputs: usize, index: usize, name: &str) -> (r: Option<String>)
    ensures
        inputs > 1 ==> (r matches Some(h) && h@ == (if index > 0 {
            seq!['\n']
        } else {
            Seq::<char>::empty()
        }) + "==> "@ + name@ + " <=="@),
        inputs <= 1 ==> r is None,
{
    if inputs <= 1 {
        return None;
    }
    let lead = if index > 0 {
        concat_str("\n", "==> ")
    } else {
        concat_str("", "==> ")
    };
    let with_name = concat_str(lead.as_str(), name);
    let h = concat_str(with_name.as_str(), " <==");
    proof {
        reveal_strlit("\n");
        reveal_strlit("");
        assert(lead@ == (if index > 0 { seq!['\n'] } else { Seq::<char>::empty() }) + "==> "@);
    }
    Some(h)
}

} // verus!
