//! The command lines of `cut`, `tr`, `sed` and `awk`.

use vstd::prelude::*;
use crate::applets::awk::{parse_program, program_action, AwkAction};
use crate::applets::cat::strings_view;
use crate::applets::cut::{parse_selection, selection_of, Selection};
use crate::applets::sed::{parse_substitute_command, substitute_of, SubstituteCommand};
use crate::text::{chars_of, concat_str, str_eq};

verus! {

broadcast use vstd::std_specs::vec::group_vec_axioms;

// ---------------------------------------------------------------------------
// cut
// ---------------------------------------------------------------------------

/// What `cut` selects: characters, or fields split at a delimiter.
#[derive(Debug, Clone, Copy, PartialEq, Eq, Structural)]
pub enum CutMode {
    Characters(Selection),
    Fields(Selection, char),
}

#[derive(Debug, Clone)]
pub enum CutUsage {
    MissingArgument(char),
    DelimiterWithoutFields,
    InvalidOption(String),
    NoMode,
}

pub enum CutUsageView {
    MissingArgument(char),
    DelimiterWithoutFields,
    InvalidOption(Seq<char>),
    NoMode,
}

pub open spec fn cut_usage_view(e: CutUsage) -> CutUsageView {
    match e {
        CutUsage::MissingArgument(c) => CutUsageView::MissingArgument(c),
        CutUsage::DelimiterWithoutFields => CutUsageView::DelimiterWithoutFields,
        CutUsage::InvalidOption(s) => CutUsageView::InvalidOption(s@),
        CutUsage::NoMode => CutUsageView::NoMode,
    }
}

/// A field mode with the delimiter `-d` gives (its first character, tab
/// where it has none); `None` where the mode is not a field mode.
pub open spec fn with_delimiter(mode: Option<CutMode>, v: Seq<char>) -> Option<CutMode> {
    match mode {
        Some(CutMode::Fields(s, _)) => Some(CutMode::Fields(s, if v.len() > 0 { v[0] } else { '\t' })),
        _ => None,
    }
}

/// How `cut` reads its arguments from `k` on: `-c LIST` and `-f LIST` set
/// the mode (a list that does not parse leaves none), `-d DELIM` sets the
/// delimiter of a field mode (its first character, tab where it has none;
/// without `-f` before it the command line is refused), any other argument
/// beginning with `-` is refused, the rest are files.
pub open spec fn cut_args(args: Seq<Seq<char>>, k: int, mode: Option<CutMode>, files: Seq<Seq<char>>) -> Result<(Option<CutMode>, Seq<Seq<char>>), CutUsageView>
    decreases args.len() - k,
{
    if k < 0 || k >= args.len() {
        Ok((mode, files))
    } else {
        let a = args[k];
        if a == "-c"@ || a == "-f"@ || a == "-d"@ {
            if k + 1 >= args.len() {
                Err(CutUsageView::MissingArgument(a[1]))
            } else {
                let v = args[k + 1];
                if a == "-c"@ {
                    cut_args(args, k + 2, match selection_of(v) {
                        Some(s) => Some(CutMode::Characters(s)),
                        None => None,
                    }, files)
                } else if a == "-f"@ {
                    cut_args(args, k + 2, match selection_of(v) {
                        Some(s) => Some(CutMode::Fields(s, '\t')),
                        None => None,
                    }, files)
                } else {
                    match with_delimiter(mode, v) {
                        Some(m) => cut_args(args, k + 2, Some(m), files),
                        None => Err(CutUsageView::DelimiterWithoutFields),
                    }
                }
            }
        } else if a.len() > 0 && a[0] == '-' {
            Err(CutUsageView::InvalidOption(a))
        } else {
            cut_args(args, k + 1, mode, files.push(a))
        }
    }
}

pub open spec fn cut_parse(args: Seq<Seq<char>>) -> Result<(CutMode, Seq<Seq<char>>), CutUsageView> {
    match cut_args(args, 0, None, Seq::empty()) {
        Err(e) => Err(e),
        Ok((mode, files)) => match mode {
            None => Err(CutUsageView::NoMode),
            Some(m) => Ok((m, files)),
        },
    }
}

#[derive(Debug, Clone)]
pub struct CutArgs {
    pub mode: CutMode,
    pub files: Vec<String>,
}

pub fn parse_cut_args(args: &[String]) -> (r: Result<CutArgs, CutUsage>)
    ensures
        match cut_parse(strings_view(args@)) {
            Ok((m, files)) => r matches Ok(x) && x.mode == m && strings_view(x.files@) == files,
            Err(e) => r matches Err(x) && cut_usage_view(x) == e,
        },
{
    let ghost all = strings_view(args@);
    let mut mode: Option<CutMode> = None;
    let mut files: Vec<String> = Vec::new();
    let n = args.len();
    let mut k: usize = 0;
    assert(strings_view(files@) =~= Seq::<Seq<char>>::empty());
    proof {
        reveal_strlit("-c");
        reveal_strlit("-f");
        reveal_strlit("-d");
    }
    while k < n
        invariant
            k <= n,
            n == args@.len(),
            all == strings_view(args@),
            cut_args(all, 0, None, Seq::empty()) == cut_args(all, k as int, mode, strings_view(files@)),
        decreases n - k,
    {
        let a = args[k].as_str();
        assert(all[k as int] == a@);
        let is_c = str_eq(a, "-c");
        let is_f = str_eq(a, "-f");
        let is_d = str_eq(a, "-d");
        if is_c || is_f || is_d {
            proof {
                reveal_strlit("-c");
                reveal_strlit("-f");
                reveal_strlit("-d");
            }
            let letter = if is_c {
                'c'
            } else if is_f {
                'f'
            } else {
                'd'
            };
            assert(a@[1] == letter);
            if k + 1 >= n {
                return Err(CutUsage::MissingArgument(letter));
            }
            let v = args[k + 1].as_str();
            assert(all[k + 1] == v@);
            if is_c {
                mode = match parse_selection(v) {
                    Some(s) => Some(CutMode::Characters(s)),
                    None => None,
                };
            } else if is_f {
                mode = match parse_selection(v) {
                    Some(s) => Some(CutMode::Fields(s, '\t')),
                    None => None,
                };
            } else {
                match mode {
                    Some(CutMode::Fields(s, _)) => {
                        let vc = chars_of(v);
                        let d = if vc.len() > 0 {
                            vc[0]
                        } else {
                            '\t'
                        };
                        mode = Some(CutMode::Fields(s, d));
                    },
                    _ => {
                        return Err(CutUsage::DelimiterWithoutFields);
                    },
                }
            }
            k = k + 2;
        } else {
            let cs = chars_of(a);
            if cs.len() > 0 && cs[0] == '-' {
                return Err(CutUsage::InvalidOption(args[k].clone()));
            }
            let ghost before = files@;
            files.push(args[k].clone());
            assert(strings_view(files@) =~= strings_view(before).push(a@));
            k = k + 1;
        }
    }
    match mode {
        None => Err(CutUsage::NoMode),
        Some(m) => Ok(CutArgs { mode: m, files }),
    }
}

pub open spec fn cut_usage_message(e: CutUsageView) -> Seq<char> {
    match e {
        CutUsageView::MissingArgument(c) => "cut: option requires an argument -- '"@ + seq![c, '\''],
        CutUsageView::DelimiterWithoutFields => "cut: -d requires -f"@,
        CutUsageView::InvalidOption(s) => "cut: invalid option -- '"@ + s + "'"@,
        CutUsageView::NoMode => "cut: one of -c or -f must be specified"@,
    }
}

impl CutUsage {
    pub fn message(&self) -> (r: String)
        ensures
            r@ == cut_usage_message(cut_usage_view(*self)),
    {
        proof {
            reveal_strlit("");
            reveal_strlit("cut: option requires an argument -- '");
        }
        match self {
            CutUsage::MissingArgument(c) => {
                let mut out = concat_str("cut: option requires an argument -- '", "");
                crate::text::push_char(&mut out, *c);
                crate::text::push_char(&mut out, '\'');
                out
            },
            CutUsage::DelimiterWithoutFields => concat_str("cut: -d requires -f", ""),
            CutUsage::InvalidOption(s) => {
                let mut out = concat_str("cut: invalid option -- '", s.as_str());
                out.append("'");
                out
            },
            CutUsage::NoMode => concat_str("cut: one of -c or -f must be specified", ""),
        }
    }
}

// ---------------------------------------------------------------------------
// tr
// ---------------------------------------------------------------------------

#[derive(Debug, Clone, Copy, PartialEq, Eq, Structural)]
pub enum TrUsage {
    MissingOperand,
    MissingReplacement,
}

/// `tr`'s operands: delete mode, the first set, the second set, files.
pub open spec fn tr_parse(args: Seq<Seq<char>>) -> Result<(bool, Seq<char>, Option<Seq<char>>, Seq<Seq<char>>), TrUsage> {
    if args.len() == 0 {
        Err(TrUsage::MissingOperand)
    } else {
        let delete = args[0] == "-d"@;
        let i: int = if delete { 1 } else { 0 };
        if i >= args.len() {
            Err(TrUsage::MissingOperand)
        } else if delete {
            Ok((true, args[i], None, args.subrange(i + 1, args.len() as int)))
        } else if i + 1 < args.len() {
            Ok((false, args[i], Some(args[i + 1]), args.subrange(i + 2, args.len() as int)))
        } else {
            Err(TrUsage::MissingReplacement)
        }
    }
}

#[derive(Debug, Clone)]
pub struct TrArgs {
    pub delete: bool,
    pub set1: String,
    pub set2: Option<String>,
    pub files: Vec<String>,
}

fn rest_of(args: &[String], from: usize) -> (r: Vec<String>)
    requires
        from <= args@.len(),
    ensures
        strings_view(r@) == strings_view(args@).subrange(from as int, args@.len() as int),
{
    let ghost all = strings_view(args@);
    let mut out: Vec<String> = Vec::new();
    let mut j = from;
    while j < args.len()
        invariant
            from <= j <= args@.len(),
            all == strings_view(args@),
            strings_view(out@) == all.subrange(from as int, j as int),
        decreases args@.len() - j,
    {
        let ghost before = out@;
        out.push(args[j].clone());
        assert(strings_view(out@) =~= strings_view(before).push(all[j as int]));
        assert(all.subrange(from as int, j + 1) =~= all.subrange(from as int, j as int).push(all[j as int]));
        j = j + 1;
    }
    out
}

pub fn parse_tr_args(args: &[String]) -> (r: Result<TrArgs, TrUsage>)
    ensures
        match tr_parse(strings_view(args@)) {
            Ok((d, s1, s2, files)) => r matches Ok(x) && x.delete == d && x.set1@ == s1 && match (x.set2, s2) {
                (Some(a), Some(b)) => a@ == b,
                (None, None) => true,
                _ => false,
            } && strings_view(x.files@) == files,
            Err(e) => r == Err::<TrArgs, TrUsage>(e),
        },
{
    let ghost all = strings_view(args@);
    if args.len() == 0 {
        return Err(TrUsage::MissingOperand);
    }
    assert(all[0] == args@[0]@);
    let delete = str_eq(args[0].as_str(), "-d");
    let i: usize = if delete {
        1
    } else {
        0
    };
    if i >= args.len() {
        return Err(TrUsage::MissingOperand);
    }
    assert(all[i as int] == args@[i as int]@);
    if delete {
        Ok(TrArgs { delete, set1: args[i].clone(), set2: None, files: rest_of(args, i + 1) })
    } else if i + 1 < args.len() {
        assert(all[i + 1] == args@[i + 1]@);
        Ok(TrArgs { delete, set1: args[i].clone(), set2: Some(args[i + 1].clone()), files: rest_of(args, i + 2) })
    } else {
        Err(TrUsage::MissingReplacement)
    }
}

impl TrUsage {
    pub fn message(&self) -> (r: String)
        ensures
            r@ == (match *self {
                TrUsage::MissingOperand => "tr: missing operand"@,
                TrUsage::MissingReplacement => "tr: missing replacement set"@,
            }),
    {
        proof {
            reveal_strlit("");
        }
        match self {
            TrUsage::MissingOperand => concat_str("tr: missing operand", ""),
            TrUsage::MissingReplacement => concat_str("tr: missing replacement set", ""),
        }
    }
}

// ---------------------------------------------------------------------------
// sed
// ---------------------------------------------------------------------------

#[derive(Debug, Clone, Copy, PartialEq, Eq, Structural)]
pub enum SedUsage {
    MissingArgument,
    MissingScript,
    Unsupported,
}

/// How `sed` reads its arguments from `k` on: `-e SCRIPT`, the first other
/// argument is the script where none is set yet, the rest are files.
pub open spec fn sed_args(args: Seq<Seq<char>>, k: int, script: Option<Seq<char>>, files: Seq<Seq<char>>) -> Result<(Option<Seq<char>>, Seq<Seq<char>>), SedUsage>
    decreases args.len() - k,
{
    if k < 0 || k >= args.len() {
        Ok((script, files))
    } else {
        let a = args[k];
        if a == "-e"@ {
            if k + 1 < args.len() {
                sed_args(args, k + 2, Some(args[k + 1]), files)
            } else {
                Err(SedUsage::MissingArgument)
            }
        } else if script is None {
            sed_args(args, k + 1, Some(a), files)
        } else {
            sed_args(args, k + 1, script, files.push(a))
        }
    }
}

/// The whole command line: a script that is a simple substitution, and the
/// files.
pub open spec fn sed_parse(args: Seq<Seq<char>>) -> Result<((Seq<char>, Seq<char>, bool), Seq<Seq<char>>), SedUsage> {
    match sed_args(args, 0, None, Seq::empty()) {
        Err(e) => Err(e),
        Ok((script, files)) => match script {
            None => Err(SedUsage::MissingScript),
            Some(s) => match substitute_of(s) {
                None => Err(SedUsage::Unsupported),
                Some(c) => Ok((c, files)),
            },
        },
    }
}

pub struct SedArgs {
    pub command: SubstituteCommand,
    pub files: Vec<String>,
}

pub open spec fn opt_view(o: Option<String>) -> Option<Seq<char>> {
    match o {
        Some(s) => Some(s@),
        None => None,
    }
}

pub fn parse_sed_args(args: &[String]) -> (r: Result<SedArgs, SedUsage>)
    ensures
        match sed_parse(strings_view(args@)) {
            Ok((c, files)) => r matches Ok(x) && x.command.pattern@ == c.0 && x.command.replacement@ == c.1
                && x.command.global == c.2 && strings_view(x.files@) == files,
            Err(e) => r matches Err(x) && x == e,
        },
{
    let ghost all = strings_view(args@);
    let mut script: Option<String> = None;
    let mut files: Vec<String> = Vec::new();
    let n = args.len();
    let mut k: usize = 0;
    assert(strings_view(files@) =~= Seq::<Seq<char>>::empty());
    while k < n
        invariant
            k <= n,
            n == args@.len(),
            all == strings_view(args@),
            sed_args(all, 0, None, Seq::empty()) == sed_args(all, k as int, opt_view(script), strings_view(files@)),
        decreases n - k,
    {
        let a = args[k].as_str();
        assert(all[k as int] == a@);
        if str_eq(a, "-e") {
            if k + 1 < n {
                assert(all[k + 1] == args@[k + 1]@);
                script = Some(args[k + 1].clone());
                k = k + 2;
            } else {
                return Err(SedUsage::MissingArgument);
            }
        } else if script.is_none() {
            script = Some(args[k].clone());
            k = k + 1;
        } else {
            let ghost before = files@;
            files.push(args[k].clone());
            assert(strings_view(files@) =~= strings_view(before).push(a@));
            k = k + 1;
        }
    }
    match script {
        None => Err(SedUsage::MissingScript),
        Some(s) => match parse_substitute_command(s.as_str()) {
            None => Err(SedUsage::Unsupported),
            Some(command) => Ok(SedArgs { command, files }),
        },
    }
}

impl SedUsage {
    pub fn message(&self) -> (r: String)
        ensures
            r@ == (match *self {
                SedUsage::MissingArgument => "sed: option requires an argument -- 'e'"@,
                SedUsage::MissingScript => "sed: missing script"@,
                SedUsage::Unsupported => "sed: only simple substitute scripts are currently supported"@,
            }),
    {
        proof {
            reveal_strlit("");
        }
        match self {
            SedUsage::MissingArgument => concat_str("sed: option requires an argument -- 'e'", ""),
            SedUsage::MissingScript => concat_str("sed: missing script", ""),
            SedUsage::Unsupported => concat_str("sed: only simple substitute scripts are currently supported", ""),
        }
    }
}

// ---------------------------------------------------------------------------
// awk
// ---------------------------------------------------------------------------

#[derive(Debug, Clone, Copy, PartialEq, Eq, Structural)]
pub enum AwkUsage {
    MissingProgram,
    Unsupported,
}

pub struct AwkArgs {
    pub action: AwkAction,
    pub files: Vec<String>,
}

/// `awk PROGRAM FILE...`: the program must be one the applet supports.
pub fn parse_awk_args(args: &[String]) -> (r: Result<AwkArgs, AwkUsage>)
    ensures
        args@.len() == 0 ==> r == Err::<AwkArgs, AwkUsage>(AwkUsage::MissingProgram),
        args@.len() > 0 ==> match program_action(args@[0]@) {
            Some(a) => r matches Ok(x) && x.action == a && strings_view(x.files@) == strings_view(args@).subrange(
                1,
                args@.len() as int,
            ),
            None => r == Err::<AwkArgs, AwkUsage>(AwkUsage::Unsupported),
        },
{
    if args.len() == 0 {
        return Err(AwkUsage::MissingProgram);
    }
    match parse_program(args[0].as_str()) {
        None => Err(AwkUsage::Unsupported),
        Some(action) => Ok(AwkArgs { action, files: rest_of(args, 1) }),
    }
}

impl AwkUsage {
    pub fn message(&self) -> (r: String)
        ensures
            r@ == (match *self {
                AwkUsage::MissingProgram => "awk: missing program"@,
                AwkUsage::Unsupported => "awk: only print-oriented programs are currently supported"@,
            }),
    {
        proof {
            reveal_strlit("");
        }
        match self {
            AwkUsage::MissingProgram => concat_str("awk: missing program", ""),
            AwkUsage::Unsupported => concat_str("awk: only print-oriented programs are currently supported", ""),
        }
    }
}

} // verus!
