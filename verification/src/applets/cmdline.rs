//! The command lines of the remaining applets: `sort`, `uniq` and `gzip`
//! (exact words), `chmod`, `chown` and `chgrp` (a mode or owner, then
//! files), `mkdir`, `rmdir`, `basename`, `dirname`, `tee` and `env`, and
//! the lines `uname` and `id` print.

use vstd::prelude::*;
use crate::applets::cat::strings_view;
use crate::applets::files::{chmod_mode, parse_mode};
use crate::applets::headtail::{first_other, first_other_exec};
use crate::applets::tar::{parse_octal, parse_octal_exec};
use crate::text::{chars_of, concat_str, decimal, decimal_string, push_char, str_eq, string_of_range};

verus! {

broadcast use vstd::std_specs::vec::group_vec_axioms;

// ---------------------------------------------------------------------------
// Exact words
// ---------------------------------------------------------------------------

/// How an applet that knows only exact words reads its arguments from `k`
/// on: each of `words` sets itself; `--` is skipped where `skip_dash_dash`
/// says so; any other argument beginning with `-` is refused (the error is
/// that argument); the rest are operands.
pub open spec fn word_args(
    args: Seq<Seq<char>>,
    k: int,
    words: Seq<Seq<char>>,
    skip_dash_dash: bool,
    on: Set<Seq<char>>,
    ops: Seq<Seq<char>>,
) -> Result<(Set<Seq<char>>, Seq<Seq<char>>), Seq<char>>
    decreases args.len() - k,
{
    if k < 0 || k >= args.len() {
        Ok((on, ops))
    } else {
        let a = args[k];
        if words.contains(a) {
            word_args(args, k + 1, words, skip_dash_dash, on.insert(a), ops)
        } else if skip_dash_dash && a == "--"@ {
            word_args(args, k + 1, words, skip_dash_dash, on, ops)
        } else if a.len() > 0 && a[0] == '-' {
            Err(a)
        } else {
            word_args(args, k + 1, words, skip_dash_dash, on, ops.push(a))
        }
    }
}

/// The words given and the operands.
pub struct WordArgs {
    pub on: Vec<String>,
    pub operands: Vec<String>,
}

impl WordArgs {
    /// Whether `word` was given.
    pub fn has(&self, word: &str) -> (r: bool)
        ensures
            r == strings_view(self.on@).contains(word@),
    {
        let mut i: usize = 0;
        while i < self.on.len()
            invariant
                i <= self.on@.len(),
                forall|j: int| 0 <= j < i ==> self.on@[j]@ != word@,
            decreases self.on@.len() - i,
        {
            if str_eq(self.on[i].as_str(), word) {
                assert(strings_view(self.on@)[i as int] == word@);
                return true;
            }
            i = i + 1;
        }
        proof {
            if strings_view(self.on@).contains(word@) {
                let j = choose|j: int| 0 <= j < strings_view(self.on@).len() && strings_view(self.on@)[j] == word@;
                assert(self.on@[j]@ == word@);
            }
        }
        false
    }
}

fn find_word(words: &[&str], a: &str) -> (r: bool)
    ensures
        r == words@.map_values(|w: &str| w@).contains(a@),
{
    let ghost ws = words@.map_values(|w: &str| w@);
    let mut i: usize = 0;
    while i < words.len()
        invariant
            i <= words@.len(),
            ws == words@.map_values(|w: &str| w@),
            forall|j: int| 0 <= j < i ==> ws[j] != a@,
        decreases words@.len() - i,
    {
        if str_eq(words[i], a) {
            assert(ws[i as int] == a@);
            return true;
        }
        i = i + 1;
    }
    false
}

/// Reads a command line of exact words (`sort`: `-r`, `-u`; `uniq`: `-c`,
/// `-d`, `-u`); the error is the first other argument beginning with `-`.
pub fn parse_words(args: &[String], words: &[&str], skip_dash_dash: bool) -> (r: Result<WordArgs, String>)
    ensures
        match word_args(strings_view(args@), 0, words@.map_values(|w: &str| w@), skip_dash_dash, Set::empty(), Seq::empty()) {
            Ok((on, ops)) => r matches Ok(x) && strings_view(x.on@).to_set() == on && strings_view(x.operands@) == ops,
            Err(a) => r matches Err(s) && s@ == a,
        },
{
    let ghost all = strings_view(args@);
    let ghost ws = words@.map_values(|w: &str| w@);
    let mut on: Vec<String> = Vec::new();
    let mut ops: Vec<String> = Vec::new();
    let mut k: usize = 0;
    assert(strings_view(ops@) =~= Seq::<Seq<char>>::empty());
    assert(strings_view(on@).to_set() =~= Set::<Seq<char>>::empty());
    while k < args.len()
        invariant
            k <= args@.len(),
            all == strings_view(args@),
            ws == words@.map_values(|w: &str| w@),
            word_args(all, 0, ws, skip_dash_dash, Set::empty(), Seq::empty()) == word_args(
                all,
                k as int,
                ws,
                skip_dash_dash,
                strings_view(on@).to_set(),
                strings_view(ops@),
            ),
        decreases args@.len() - k,
    {
        let a = args[k].as_str();
        assert(all[k as int] == a@);
        if find_word(words, a) {
            let ghost before = strings_view(on@);
            on.push(args[k].clone());
            proof {
                assert(strings_view(on@) =~= before.push(a@));
                before.lemma_push_to_set_commute(a@);
            }
        } else if skip_dash_dash && str_eq(a, "--") {
        } else {
            let cs = chars_of(a);
            if cs.len() > 0 && cs[0] == '-' {
                return Err(args[k].clone());
            }
            let ghost before = ops@;
            ops.push(args[k].clone());
            assert(strings_view(ops@) =~= strings_view(before).push(a@));
        }
        k = k + 1;
    }
    Ok(WordArgs { on, operands: ops })
}

/// The message for an option an exact-word applet does not know.
pub fn invalid_word_message(applet: &str, option: &str) -> (r: String)
    ensures
        r@ == applet@ + ": invalid option -- '"@ + option@ + "'"@,
{
    let mut out = concat_str(applet, ": invalid option -- '");
    out.append(option);
    out.append("'");
    out
}

// ---------------------------------------------------------------------------
// chmod, chown, chgrp
// ---------------------------------------------------------------------------

/// Why `chmod`, `chown` or `chgrp` refused its command line.
#[derive(Debug, Clone)]
pub enum TargetUsage {
    InvalidOption(char),
    InvalidMode(String),
    MissingSpec,
    MissingFiles(String),
}

pub enum TargetUsageView {
    InvalidOption(char),
    InvalidMode(Seq<char>),
    MissingSpec,
    MissingFiles(Seq<char>),
}

pub open spec fn target_usage_view(e: TargetUsage) -> TargetUsageView {
    match e {
        TargetUsage::InvalidOption(c) => TargetUsageView::InvalidOption(c),
        TargetUsage::InvalidMode(s) => TargetUsageView::InvalidMode(s@),
        TargetUsage::MissingSpec => TargetUsageView::MissingSpec,
        TargetUsage::MissingFiles(s) => TargetUsageView::MissingFiles(s@),
    }
}

/// How `chmod` (with `check_mode`), `chown` and `chgrp` read their
/// arguments from `k` on: `-R` and `--recursive`, clusters of `R`, `--`
/// making the rest files; the first other argument before any file is the
/// mode (which `chmod` checks at once) or the owner, the rest are files.
pub open spec fn target_args(
    args: Seq<Seq<char>>,
    k: int,
    check_mode: bool,
    recursive: bool,
    spec: Option<Seq<char>>,
    files: Seq<Seq<char>>,
) -> Result<(bool, Option<Seq<char>>, Seq<Seq<char>>), TargetUsageView>
    decreases args.len() - k,
{
    if k < 0 || k >= args.len() {
        Ok((recursive, spec, files))
    } else {
        let a = args[k];
        if a == "--recursive"@ {
            target_args(args, k + 1, check_mode, true, spec, files)
        } else if a == "--"@ {
            Ok((recursive, spec, files + args.subrange(k + 1, args.len() as int)))
        } else if a.len() > 1 && a[0] == '-' {
            match first_other(a, 1, 'R') {
                Some(c) => Err(TargetUsageView::InvalidOption(c)),
                None => target_args(args, k + 1, check_mode, true, spec, files),
            }
        } else if spec is None && files.len() == 0 {
            if check_mode && chmod_mode(a) is None {
                Err(TargetUsageView::InvalidMode(a))
            } else {
                target_args(args, k + 1, check_mode, recursive, Some(a), files)
            }
        } else {
            target_args(args, k + 1, check_mode, recursive, spec, files.push(a))
        }
    }
}

/// The command line as a whole: a mode or owner and at least one file.
pub open spec fn target_parse(args: Seq<Seq<char>>, check_mode: bool) -> Result<(bool, Seq<char>, Seq<Seq<char>>), TargetUsageView> {
    match target_args(args, 0, check_mode, false, None, Seq::empty()) {
        Err(e) => Err(e),
        Ok((rec, spec, files)) => match spec {
            None => Err(TargetUsageView::MissingSpec),
            Some(s) => if files.len() == 0 {
                Err(TargetUsageView::MissingFiles(s))
            } else {
                Ok((rec, s, files))
            },
        },
    }
}

/// What `chmod`, `chown` or `chgrp` was asked to do.
#[derive(Debug, Clone)]
pub struct TargetArgs {
    pub recursive: bool,
    pub spec: String,
    pub files: Vec<String>,
}

pub open spec fn option_view(o: Option<String>) -> Option<Seq<char>> {
    match o {
        Some(s) => Some(s@),
        None => None,
    }
}

pub fn parse_target_args(args: &[String], check_mode: bool) -> (r: Result<TargetArgs, TargetUsage>)
    ensures
        match target_parse(strings_view(args@), check_mode) {
            Ok((rec, s, files)) => r matches Ok(x) && x.recursive == rec && x.spec@ == s && strings_view(x.files@) == files,
            Err(e) => r matches Err(x) && target_usage_view(x) == e,
        },
{
    let ghost all = strings_view(args@);
    let mut recursive = false;
    let mut spec: Option<String> = None;
    let mut files: Vec<String> = Vec::new();
    let n = args.len();
    let mut k: usize = 0;
    let mut done = false;
    assert(strings_view(files@) =~= Seq::<Seq<char>>::empty());
    while k < n && !done
        invariant
            k <= n,
            n == args@.len(),
            all == strings_view(args@),
            !done ==> target_args(all, 0, check_mode, false, None, Seq::empty()) == target_args(
                all,
                k as int,
                check_mode,
                recursive,
                option_view(spec),
                strings_view(files@),
            ),
            done ==> target_args(all, 0, check_mode, false, None, Seq::empty()) == Ok::<
                (bool, Option<Seq<char>>, Seq<Seq<char>>),
                TargetUsageView,
            >((recursive, option_view(spec), strings_view(files@))),
        decreases n - k,
    {
        let a = args[k].as_str();
        assert(all[k as int] == a@);
        if str_eq(a, "--recursive") {
            recursive = true;
        } else if str_eq(a, "--") {
            let ghost base = strings_view(files@);
            let mut j = k + 1;
            while j < n
                invariant
                    k < j <= n,
                    n == args@.len(),
                    all == strings_view(args@),
                    strings_view(files@) == base + all.subrange(k + 1, j as int),
                decreases n - j,
            {
                let ghost before = files@;
                files.push(args[j].clone());
                assert(strings_view(files@) =~= strings_view(before).push(all[j as int]));
                assert(all.subrange(k + 1, j + 1) =~= all.subrange(k + 1, j as int).push(all[j as int]));
                j = j + 1;
            }
            done = true;
        } else {
            let cs = chars_of(a);
            if cs.len() > 1 && cs[0] == '-' {
                match first_other_exec(&cs, 'R') {
                    Some(c) => {
                        return Err(TargetUsage::InvalidOption(c));
                    },
                    None => {
                        recursive = true;
                    },
                }
            } else if spec.is_none() && files.len() == 0 {
                if check_mode && parse_mode(a).is_none() {
                    return Err(TargetUsage::InvalidMode(args[k].clone()));
                }
                spec = Some(args[k].clone());
            } else {
                let ghost before = files@;
                files.push(args[k].clone());
                assert(strings_view(files@) =~= strings_view(before).push(a@));
            }
        }
        k = k + 1;
    }
    match spec {
        None => Err(TargetUsage::MissingSpec),
        Some(s) => {
            if files.len() == 0 {
                Err(TargetUsage::MissingFiles(s))
            } else {
                Ok(TargetArgs { recursive, spec: s, files })
            }
        },
    }
}

/// The message for a refused `chmod`, `chown` or `chgrp` command line.
pub open spec fn target_usage_message(applet: Seq<char>, e: TargetUsageView) -> Seq<char> {
    match e {
        TargetUsageView::InvalidOption(c) => applet + ": invalid option -- '"@ + seq![c, '\''],
        TargetUsageView::InvalidMode(s) => applet + ": invalid mode: '"@ + s + "'"@,
        TargetUsageView::MissingSpec => if applet == "chmod"@ {
            "chmod: missing mode operand"@
        } else {
            applet + ": missing operand"@
        },
        TargetUsageView::MissingFiles(s) => if applet == "chmod"@ {
            "chmod: missing operand"@
        } else {
            applet + ": missing operand after '"@ + s + "'"@
        },
    }
}

impl TargetUsage {
    pub fn message(&self, applet: &str) -> (r: String)
        ensures
            r@ == target_usage_message(applet@, target_usage_view(*self)),
    {
        let is_chmod = str_eq(applet, "chmod");
        proof {
            reveal_strlit("");
        }
        match self {
            TargetUsage::InvalidOption(c) => {
                let mut out = concat_str(applet, ": invalid option -- '");
                push_char(&mut out, *c);
                push_char(&mut out, '\'');
                assert(out@ =~= target_usage_message(applet@, target_usage_view(*self)));
                out
            },
            TargetUsage::InvalidMode(s) => {
                let mut out = concat_str(applet, ": invalid mode: '");
                out.append(s.as_str());
                out.append("'");
                out
            },
            TargetUsage::MissingSpec => if is_chmod {
                concat_str("chmod: missing mode operand", "")
            } else {
                concat_str(applet, ": missing operand")
            },
            TargetUsage::MissingFiles(s) => if is_chmod {
                concat_str("chmod: missing operand", "")
            } else {
                let mut out = concat_str(applet, ": missing operand after '");
                out.append(s.as_str());
                out.append("'");
                out
            },
        }
    }
}

// ---------------------------------------------------------------------------
// mkdir
// ---------------------------------------------------------------------------

/// `s` without its leading zeros.
pub open spec fn without_leading_zeros(s: Seq<char>) -> Seq<char>
    decreases s.len(),
{
    if s.len() > 0 && s[0] == '0' {
        without_leading_zeros(s.skip(1))
    } else {
        s
    }
}

/// The mode `mkdir -m` reads: the octal number after the leading zeros
/// (so `0` alone is refused), which must fit in 32 bits.
pub open spec fn mkdir_mode(s: Seq<char>) -> Option<u32> {
    match parse_octal(without_leading_zeros(s)) {
        Some(v) => if v <= u32::MAX {
            Some(v as u32)
        } else {
            None
        },
        None => None,
    }
}

#[derive(Debug, Clone)]
pub enum MkdirUsage {
    MissingModeArgument,
    InvalidMode(String),
    InvalidOption(char),
    MissingOperand,
}

pub enum MkdirUsageView {
    MissingModeArgument,
    InvalidMode(Seq<char>),
    InvalidOption(char),
    MissingOperand,
}

pub open spec fn mkdir_usage_view(e: MkdirUsage) -> MkdirUsageView {
    match e {
        MkdirUsage::MissingModeArgument => MkdirUsageView::MissingModeArgument,
        MkdirUsage::InvalidMode(s) => MkdirUsageView::InvalidMode(s@),
        MkdirUsage::InvalidOption(c) => MkdirUsageView::InvalidOption(c),
        MkdirUsage::MissingOperand => MkdirUsageView::MissingOperand,
    }
}

/// How `mkdir` reads its arguments from `k` on: `-p`/`--parents`,
/// `-m`/`--mode MODE`, `--` making the rest directories, clusters of `p`,
/// and the directories; the state is (parents, mode).
pub open spec fn mkdir_args(args: Seq<Seq<char>>, k: int, st: (bool, u32), dirs: Seq<Seq<char>>) -> Result<((bool, u32), Seq<Seq<char>>), MkdirUsageView>
    decreases args.len() - k,
{
    if k < 0 || k >= args.len() {
        Ok((st, dirs))
    } else {
        let a = args[k];
        if a == "--parents"@ {
            mkdir_args(args, k + 1, (true, st.1), dirs)
        } else if a == "-m"@ || a == "--mode"@ {
            if k + 1 < args.len() {
                match mkdir_mode(args[k + 1]) {
                    Some(m) => mkdir_args(args, k + 2, (st.0, m), dirs),
                    None => Err(MkdirUsageView::InvalidMode(args[k + 1])),
                }
            } else {
                Err(MkdirUsageView::MissingModeArgument)
            }
        } else if a == "--"@ {
            Ok((st, dirs + args.subrange(k + 1, args.len() as int)))
        } else if a.len() > 1 && a[0] == '-' {
            match first_other(a, 1, 'p') {
                Some(c) => Err(MkdirUsageView::InvalidOption(c)),
                None => mkdir_args(args, k + 1, (true, st.1), dirs),
            }
        } else {
            mkdir_args(args, k + 1, st, dirs.push(a))
        }
    }
}

pub open spec fn mkdir_parse(args: Seq<Seq<char>>) -> Result<((bool, u32), Seq<Seq<char>>), MkdirUsageView> {
    match mkdir_args(args, 0, (false, 0o755), Seq::empty()) {
        Ok((st, dirs)) => if dirs.len() == 0 {
            Err(MkdirUsageView::MissingOperand)
        } else {
            Ok((st, dirs))
        },
        Err(e) => Err(e),
    }
}

#[derive(Debug, Clone)]
pub struct MkdirArgs {
    pub parents: bool,
    pub mode: u32,
    pub dirs: Vec<String>,
}

fn mkdir_mode_exec(s: &str) -> (r: Option<u32>)
    ensures
        r == mkdir_mode(s@),
{
    let cs = chars_of(s);
    let mut i: usize = 0;
    assert(cs@.skip(0) =~= cs@);
    while i < cs.len() && cs[i] == '0'
        invariant
            i <= cs@.len(),
            cs@ == s@,
            without_leading_zeros(s@) == without_leading_zeros(cs@.skip(i as int)),
        decreases cs@.len() - i,
    {
        assert(cs@.skip(i as int).skip(1) =~= cs@.skip(i + 1));
        i = i + 1;
    }
    let rest = string_of_range(&cs, i, cs.len());
    assert(rest@ =~= cs@.skip(i as int));
    match parse_octal_exec(rest.as_str()) {
        Some(v) => if v <= u32::MAX as u64 {
            Some(v as u32)
        } else {
            None
        },
        None => None,
    }
}

pub fn parse_mkdir_args(args: &[String]) -> (r: Result<MkdirArgs, MkdirUsage>)
    ensures
        match mkdir_parse(strings_view(args@)) {
            Ok((st, dirs)) => r matches Ok(x) && x.parents == st.0 && x.mode == st.1 && strings_view(x.dirs@) == dirs,
            Err(e) => r matches Err(x) && mkdir_usage_view(x) == e,
        },
{
    let ghost all = strings_view(args@);
    let mut parents = false;
    let mut mode: u32 = 0o755;
    let mut dirs: Vec<String> = Vec::new();
    let n = args.len();
    let mut k: usize = 0;
    let mut done = false;
    assert(strings_view(dirs@) =~= Seq::<Seq<char>>::empty());
    while k < n && !done
        invariant
            k <= n,
            n == args@.len(),
            all == strings_view(args@),
            !done ==> mkdir_args(all, 0, (false, 0o755), Seq::empty()) == mkdir_args(
                all,
                k as int,
                (parents, mode),
                strings_view(dirs@),
            ),
            done ==> mkdir_args(all, 0, (false, 0o755), Seq::empty()) == Ok::<((bool, u32), Seq<Seq<char>>), MkdirUsageView>(
                ((parents, mode), strings_view(dirs@)),
            ),
        decreases n - k,
    {
        let a = args[k].as_str();
        assert(all[k as int] == a@);
        if str_eq(a, "--parents") {
            parents = true;
            k = k + 1;
        } else if str_eq(a, "-m") || str_eq(a, "--mode") {
            if k + 1 < n {
                assert(all[k + 1] == args@[k + 1]@);
                match mkdir_mode_exec(args[k + 1].as_str()) {
                    Some(m) => {
                        mode = m;
                        k = k + 2;
                    },
                    None => {
                        return Err(MkdirUsage::InvalidMode(args[k + 1].clone()));
                    },
                }
            } else {
                return Err(MkdirUsage::MissingModeArgument);
            }
        } else if str_eq(a, "--") {
            let ghost base = strings_view(dirs@);
            let mut j = k + 1;
            while j < n
                invariant
                    k < j <= n,
                    n == args@.len(),
                    all == strings_view(args@),
                    strings_view(dirs@) == base + all.subrange(k + 1, j as int),
                decreases n - j,
            {
                let ghost before = dirs@;
                dirs.push(args[j].clone());
                assert(strings_view(dirs@) =~= strings_view(before).push(all[j as int]));
                assert(all.subrange(k + 1, j + 1) =~= all.subrange(k + 1, j as int).push(all[j as int]));
                j = j + 1;
            }
            done = true;
            k = k + 1;
        } else {
            let cs = chars_of(a);
            if cs.len() > 1 && cs[0] == '-' {
                match first_other_exec(&cs, 'p') {
                    Some(c) => {
                        return Err(MkdirUsage::InvalidOption(c));
                    },
                    None => {
                        parents = true;
                    },
                }
            } else {
                let ghost before = dirs@;
                dirs.push(args[k].clone());
                assert(strings_view(dirs@) =~= strings_view(before).push(a@));
            }
            k = k + 1;
        }
    }
    if dirs.len() == 0 {
        return Err(MkdirUsage::MissingOperand);
    }
    Ok(MkdirArgs { parents, mode, dirs })
}

pub open spec fn mkdir_usage_message(e: MkdirUsageView) -> Seq<char> {
    match e {
        MkdirUsageView::MissingModeArgument => "mkdir: option requires an argument -- 'm'"@,
        MkdirUsageView::InvalidMode(s) => "mkdir: invalid mode: '"@ + s + "'"@,
        MkdirUsageView::InvalidOption(c) => "mkdir: invalid option -- '"@ + seq![c, '\''],
        MkdirUsageView::MissingOperand => "mkdir: missing operand"@,
    }
}

impl MkdirUsage {
    pub fn message(&self) -> (r: String)
        ensures
            r@ == mkdir_usage_message(mkdir_usage_view(*self)),
    {
        proof {
            reveal_strlit("");
            reveal_strlit("mkdir: invalid option -- '");
        }
        match self {
            MkdirUsage::MissingModeArgument => concat_str("mkdir: option requires an argument -- 'm'", ""),
            MkdirUsage::InvalidMode(s) => {
                let mut out = concat_str("mkdir: invalid mode: '", s.as_str());
                out.append("'");
                out
            },
            MkdirUsage::InvalidOption(c) => {
                let mut out = concat_str("mkdir: invalid option -- '", "");
                push_char(&mut out, *c);
                push_char(&mut out, '\'');
                out
            },
            MkdirUsage::MissingOperand => concat_str("mkdir: missing operand", ""),
        }
    }
}

// ---------------------------------------------------------------------------
// rmdir, basename, dirname, tee, env, uname, id
// ---------------------------------------------------------------------------

/// How `rmdir`, `basename` and `dirname` read their arguments from `k`
/// on: `--` is skipped, an argument of two or more characters beginning
/// with `-` is refused (the error is the rest of it), the others are
/// operands.
pub open spec fn plain_args(args: Seq<Seq<char>>, k: int, ops: Seq<Seq<char>>) -> Result<Seq<Seq<char>>, Seq<char>>
    decreases args.len() - k,
{
    if k < 0 || k >= args.len() {
        Ok(ops)
    } else {
        let a = args[k];
        if a == "--"@ {
            plain_args(args, k + 1, ops)
        } else if a.len() > 1 && a[0] == '-' {
            Err(a.skip(1))
        } else {
            plain_args(args, k + 1, ops.push(a))
        }
    }
}

pub fn parse_plain_args(args: &[String]) -> (r: Result<Vec<String>, String>)
    ensures
        match plain_args(strings_view(args@), 0, Seq::empty()) {
            Ok(ops) => r matches Ok(v) && strings_view(v@) == ops,
            Err(rest) => r matches Err(s) && s@ == rest,
        },
{
    let ghost all = strings_view(args@);
    let mut ops: Vec<String> = Vec::new();
    let mut k: usize = 0;
    assert(strings_view(ops@) =~= Seq::<Seq<char>>::empty());
    while k < args.len()
        invariant
            k <= args@.len(),
            all == strings_view(args@),
            plain_args(all, 0, Seq::empty()) == plain_args(all, k as int, strings_view(ops@)),
        decreases args@.len() - k,
    {
        let a = args[k].as_str();
        assert(all[k as int] == a@);
        if !str_eq(a, "--") {
            let cs = chars_of(a);
            if cs.len() > 1 && cs[0] == '-' {
                let rest = string_of_range(&cs, 1, cs.len());
                assert(rest@ =~= a@.skip(1));
                return Err(rest);
            }
            let ghost before = ops@;
            ops.push(args[k].clone());
            assert(strings_view(ops@) =~= strings_view(before).push(a@));
        }
        k = k + 1;
    }
    Ok(ops)
}

/// The arguments of `tee` other than `-a`, in order.
pub open spec fn tee_files(args: Seq<Seq<char>>) -> Seq<Seq<char>>
    decreases args.len(),
{
    if args.len() == 0 {
        args
    } else if args.last() == "-a"@ {
        tee_files(args.drop_last())
    } else {
        tee_files(args.drop_last()).push(args.last())
    }
}

/// `tee`: whether to append (`-a` anywhere) and the files.
pub fn parse_tee_args(args: &[String]) -> (r: (bool, Vec<String>))
    ensures
        r.0 == strings_view(args@).contains("-a"@),
        strings_view(r.1@) == tee_files(strings_view(args@)),
{
    let ghost all = strings_view(args@);
    let mut append = false;
    let mut files: Vec<String> = Vec::new();
    let mut k: usize = 0;
    assert(all.take(0) =~= Seq::<Seq<char>>::empty());
    while k < args.len()
        invariant
            k <= args@.len(),
            all == strings_view(args@),
            append == all.take(k as int).contains("-a"@),
            strings_view(files@) == tee_files(all.take(k as int)),
        decreases args@.len() - k,
    {
        let ghost pre = all.take(k as int);
        let ghost post = all.take(k + 1);
        assert(post.drop_last() =~= pre);
        assert(post.last() == args@[k as int]@);
        if str_eq(args[k].as_str(), "-a") {
            append = true;
            assert(post[k as int] == "-a"@);
        } else {
            let ghost before = files@;
            files.push(args[k].clone());
            assert(strings_view(files@) =~= strings_view(before).push(args@[k as int]@));
        }
        proof {
            if pre.contains("-a"@) {
                let j = choose|j: int| 0 <= j < pre.len() && pre[j] == "-a"@;
                assert(post[j] == pre[j]);
            }
            if post.contains("-a"@) && !pre.contains("-a"@) {
                let j = choose|j: int| 0 <= j < post.len() && post[j] == "-a"@;
                if j < k {
                    assert(pre[j] == post[j]);
                }
            }
        }
        k = k + 1;
    }
    assert(all.take(args@.len() as int) =~= all);
    (append, files)
}

/// The first `=` of `s`, from position `i`.
pub open spec fn first_equals(s: Seq<char>, i: int) -> Option<int>
    decreases s.len() - i,
{
    if i < 0 || i >= s.len() {
        None
    } else if s[i] == '=' {
        Some(i)
    } else {
        first_equals(s, i + 1)
    }
}

/// `env`'s reading of an argument as `NAME=VALUE`, split at the first `=`.
pub fn split_assignment(arg: &str) -> (r: Option<(String, String)>)
    ensures
        match first_equals(arg@, 0) {
            Some(i) => r matches Some(p) && p.0@ == arg@.subrange(0, i) && p.1@ == arg@.subrange(i + 1, arg@.len() as int),
            None => r is None,
        },
{
    let cs = chars_of(arg);
    let mut i: usize = 0;
    while i < cs.len()
        invariant
            i <= cs@.len(),
            cs@ == arg@,
            first_equals(arg@, 0) == first_equals(arg@, i as int),
        decreases cs@.len() - i,
    {
        if cs[i] == '=' {
            return Some((string_of_range(&cs, 0, i), string_of_range(&cs, i + 1, cs.len())));
        }
        i = i + 1;
    }
    None
}

/// The line `uname` prints: the system's name, and with `-a` also the
/// node name, release and machine, separated by spaces.
pub fn uname_line(all: bool, sysname: &str, nodename: &str, release: &str, machine: &str) -> (r: String)
    ensures
        r@ == (if all {
            sysname@ + " "@ + nodename@ + " "@ + release@ + " "@ + machine@
        } else {
            sysname@
        }),
{
    let mut out = concat_str(sysname, "");
    proof {
        reveal_strlit("");
    }
    if all {
        out.append(" ");
        out.append(nodename);
        out.append(" ");
        out.append(release);
        out.append(" ");
        out.append(machine);
    }
    out
}

/// The line `id` prints.
pub fn id_line(uid: u32, gid: u32) -> (r: String)
    ensures
        r@ == "uid="@ + decimal(uid as nat) + " gid="@ + decimal(gid as nat),
{
    let mut out = concat_str("uid=", decimal_string(uid as u64).as_str());
    out.append(" gid=");
    out.append(decimal_string(gid as u64).as_str());
    out
}

} // verus!
