//! The command lines of the applets that take only switches and operands
//! (`cp`, `mv`, `rm`, `ln`, `touch`, `pwd`): one reader driven by a table
//! of each applet's letters and long names, and where a copy, move or link
//! lands.

use vstd::prelude::*;
use crate::applets::cat::strings_view;
use crate::path::{base_name, file_name_of, join, joined};
use crate::text::{chars_of, str_eq};

verus! {

broadcast use vstd::std_specs::vec::group_vec_axioms;

/// What `--` does: the rest are operands, it is skipped, or it ends the
/// arguments.
#[derive(Debug, Clone, Copy, PartialEq, Eq, Structural)]
pub enum DashDash {
    Operands,
    Skip,
    Stop,
}

/// An applet's switches: each accepted letter with the switch it sets
/// (named by its canonical letter), each long name with the switch it
/// sets, and what `--` does.
pub struct SwitchTable {
    pub letters: Vec<char>,
    pub canon: Vec<char>,
    pub words: Vec<String>,
    pub word_canon: Vec<char>,
    pub dash_dash: DashDash,
}

impl SwitchTable {
    pub open spec fn wf(&self) -> bool {
        self.letters@.len() == self.canon@.len() && self.words@.len() == self.word_canon@.len()
    }
}

/// The switch the letter `c` sets, looking from entry `i` of the table.
pub open spec fn letter_switch(letters: Seq<char>, canon: Seq<char>, c: char, i: int) -> Option<char>
    decreases letters.len() - i,
{
    if i < 0 || i >= letters.len() {
        None
    } else if letters[i] == c {
        Some(canon[i])
    } else {
        letter_switch(letters, canon, c, i + 1)
    }
}

/// The switch the long name `a` sets, looking from entry `i`.
pub open spec fn word_switch(words: Seq<Seq<char>>, canon: Seq<char>, a: Seq<char>, i: int) -> Option<char>
    decreases words.len() - i,
{
    if i < 0 || i >= words.len() {
        None
    } else if words[i] == a {
        Some(canon[i])
    } else {
        word_switch(words, canon, a, i + 1)
    }
}

/// The switches after the letters of a cluster from position `i`, or the
/// first letter that is no option.
pub open spec fn cluster_switches(a: Seq<char>, i: int, letters: Seq<char>, canon: Seq<char>, on: Set<char>) -> Result<Set<char>, char>
    decreases a.len() - i,
{
    if i < 0 || i >= a.len() {
        Ok(on)
    } else {
        match letter_switch(letters, canon, a[i], 0) {
            Some(s) => cluster_switches(a, i + 1, letters, canon, on.insert(s)),
            None => Err(a[i]),
        }
    }
}

/// How the applet reads its arguments from index `k` on: a long name sets
/// its switch; `--` does what the table says; an argument of two or more
/// characters beginning with `-` is a cluster of letters; anything else is
/// an operand. The error is the first letter that is no option.
pub open spec fn switch_args(
    args: Seq<Seq<char>>,
    k: int,
    t: (Seq<char>, Seq<char>, Seq<Seq<char>>, Seq<char>, DashDash),
    on: Set<char>,
    ops: Seq<Seq<char>>,
) -> Result<(Set<char>, Seq<Seq<char>>), char>
    decreases args.len() - k,
{
    if k < 0 || k >= args.len() {
        Ok((on, ops))
    } else {
        let a = args[k];
        match word_switch(t.2, t.3, a, 0) {
            Some(s) => switch_args(args, k + 1, t, on.insert(s), ops),
            None => if a == "--"@ {
                match t.4 {
                    DashDash::Operands => Ok((on, ops + args.subrange(k + 1, args.len() as int))),
                    DashDash::Skip => switch_args(args, k + 1, t, on, ops),
                    DashDash::Stop => Ok((on, ops)),
                }
            } else if a.len() > 1 && a[0] == '-' {
                match cluster_switches(a, 1, t.0, t.1, on) {
                    Ok(on2) => switch_args(args, k + 1, t, on2, ops),
                    Err(c) => Err(c),
                }
            } else {
                switch_args(args, k + 1, t, on, ops.push(a))
            },
        }
    }
}

pub open spec fn table_view(t: &SwitchTable) -> (Seq<char>, Seq<char>, Seq<Seq<char>>, Seq<char>, DashDash) {
    (t.letters@, t.canon@, strings_view(t.words@), t.word_canon@, t.dash_dash)
}

/// The switches that were set, and the operands in order.
pub struct SwitchResult {
    pub on: Vec<char>,
    pub operands: Vec<String>,
}

impl SwitchResult {
    /// Whether the switch named `c` was set.
    pub fn has(&self, c: char) -> (r: bool)
        ensures
            r == self.on@.contains(c),
    {
        let mut i: usize = 0;
        while i < self.on.len()
            invariant
                i <= self.on@.len(),
                forall|j: int| 0 <= j < i ==> self.on@[j] != c,
            decreases self.on@.len() - i,
        {
            if self.on[i] == c {
                return true;
            }
            i = i + 1;
        }
        false
    }
}

fn find_letter(t: &SwitchTable, c: char) -> (r: Option<char>)
    requires
        t.wf(),
    ensures
        r == letter_switch(t.letters@, t.canon@, c, 0),
{
    let mut i: usize = 0;
    while i < t.letters.len()
        invariant
            t.wf(),
            i <= t.letters@.len(),
            letter_switch(t.letters@, t.canon@, c, 0) == letter_switch(t.letters@, t.canon@, c, i as int),
        decreases t.letters@.len() - i,
    {
        if t.letters[i] == c {
            return Some(t.canon[i]);
        }
        i = i + 1;
    }
    None
}

fn find_word(t: &SwitchTable, a: &str) -> (r: Option<char>)
    requires
        t.wf(),
    ensures
        r == word_switch(strings_view(t.words@), t.word_canon@, a@, 0),
{
    let ghost ws = strings_view(t.words@);
    let mut i: usize = 0;
    while i < t.words.len()
        invariant
            t.wf(),
            ws == strings_view(t.words@),
            i <= t.words@.len(),
            word_switch(ws, t.word_canon@, a@, 0) == word_switch(ws, t.word_canon@, a@, i as int),
        decreases t.words@.len() - i,
    {
        assert(ws[i as int] == t.words@[i as int]@);
        if str_eq(t.words[i].as_str(), a) {
            return Some(t.word_canon[i]);
        }
        i = i + 1;
    }
    None
}

/// Adds `c` to the switches that are on.
fn switch_on(on: &mut Vec<char>, c: char)
    ensures
        final(on)@.to_set() == old(on)@.to_set().insert(c),
{
    let ghost before = on@;
    on.push(c);
    proof {
        before.lemma_push_to_set_commute(c);
    }
}

/// Reads a command line by the applet's table.
pub fn parse_switches(args: &[String], t: &SwitchTable) -> (r: Result<SwitchResult, char>)
    requires
        t.wf(),
    ensures
        match switch_args(strings_view(args@), 0, table_view(t), Set::empty(), Seq::empty()) {
            Ok((on, ops)) => r matches Ok(x) && x.on@.to_set() == on && strings_view(x.operands@) == ops,
            Err(c) => r == Err::<SwitchResult, char>(c),
        },
{
    let ghost all = strings_view(args@);
    let ghost tv = table_view(t);
    let mut on: Vec<char> = Vec::new();
    let mut ops: Vec<String> = Vec::new();
    let n = args.len();
    let mut k: usize = 0;
    assert(strings_view(ops@) =~= Seq::<Seq<char>>::empty());
    assert(on@.to_set() =~= Set::<char>::empty());
    while k < n
        invariant
            k <= n,
            n == args@.len(),
            t.wf(),
            all == strings_view(args@),
            tv == table_view(t),
            switch_args(all, 0, tv, Set::empty(), Seq::empty()) == switch_args(
                all,
                k as int,
                tv,
                on@.to_set(),
                strings_view(ops@),
            ),
        decreases n - k,
    {
        let a = args[k].as_str();
        assert(all[k as int] == a@);
        match find_word(t, a) {
            Some(s) => {
                switch_on(&mut on, s);
            },
            None => {
                if str_eq(a, "--") {
                    match t.dash_dash {
                        DashDash::Operands => {
                            let ghost base = strings_view(ops@);
                            let mut j = k + 1;
                            while j < n
                                invariant
                                    k < j <= n,
                                    n == args@.len(),
                                    all == strings_view(args@),
                                    strings_view(ops@) == base + all.subrange(k + 1, j as int),
                                decreases n - j,
                            {
                                let ghost before = ops@;
                                ops.push(args[j].clone());
                                assert(strings_view(ops@) =~= strings_view(before).push(all[j as int]));
                                assert(all.subrange(k + 1, j + 1) =~= all.subrange(k + 1, j as int).push(all[j as int]));
                                j = j + 1;
                            }
                            return Ok(SwitchResult { on, operands: ops });
                        },
                        DashDash::Skip => {},
                        DashDash::Stop => {
                            return Ok(SwitchResult { on, operands: ops });
                        },
                    }
                } else {
                    let cs = chars_of(a);
                    if cs.len() > 1 && cs[0] == '-' {
                        let mut i: usize = 1;
                        while i < cs.len()
                            invariant
                                1 <= i <= cs@.len(),
                                cs@ == a@,
                                all == strings_view(args@),
                                t.wf(),
                                tv == table_view(t),
                                switch_args(all, 0, tv, Set::empty(), Seq::empty()) == (match cluster_switches(
                                    a@,
                                    i as int,
                                    tv.0,
                                    tv.1,
                                    on@.to_set(),
                                ) {
                                    Ok(on2) => switch_args(all, k + 1, tv, on2, strings_view(ops@)),
                                    Err(c) => Err(c),
                                }),
                            decreases cs@.len() - i,
                        {
                            match find_letter(t, cs[i]) {
                                Some(s) => {
                                    switch_on(&mut on, s);
                                },
                                None => {
                                    assert(cs@[i as int] == a@[i as int]);
                                    assert(cluster_switches(a@, i as int, tv.0, tv.1, on@.to_set()) == Err::<Set<char>, char>(
                                        cs@[i as int],
                                    ));
                                    return Err(cs[i]);
                                },
                            }
                            i = i + 1;
                        }
                    } else {
                        let ghost before = ops@;
                        ops.push(args[k].clone());
                        assert(strings_view(ops@) =~= strings_view(before).push(a@));
                    }
                }
            },
        }
        k = k + 1;
    }
    Ok(SwitchResult { on, operands: ops })
}

fn table(letters: &str, canon: &str, words: &[&str], word_canon: &str, dash_dash: DashDash) -> (r: SwitchTable)
    requires
        letters@.len() == canon@.len(),
        words@.len() == word_canon@.len(),
    ensures
        r.wf(),
        r.letters@ == letters@,
        r.canon@ == canon@,
        strings_view(r.words@) == words@.map_values(|w: &str| w@),
        r.word_canon@ == word_canon@,
        r.dash_dash == dash_dash,
{
    let mut ws: Vec<String> = Vec::new();
    let mut i: usize = 0;
    while i < words.len()
        invariant
            i <= words@.len(),
            strings_view(ws@) == words@.subrange(0, i as int).map_values(|w: &str| w@),
        decreases words@.len() - i,
    {
        let ghost before = ws@;
        ws.push(crate::text::concat_str(words[i], ""));
        proof {
            reveal_strlit("");
            assert(strings_view(ws@) =~= strings_view(before).push(words@[i as int]@));
            assert(words@.subrange(0, i + 1).map_values(|w: &str| w@) =~= words@.subrange(0, i as int).map_values(
                |w: &str| w@,
            ).push(words@[i as int]@));
        }
        i = i + 1;
    }
    assert(words@.subrange(0, words@.len() as int) =~= words@);
    SwitchTable { letters: chars_of(letters), canon: chars_of(canon), words: ws, word_canon: chars_of(word_canon), dash_dash }
}

/// `cp`: `-r`/`-R`/`--recursive`, `-f`/`--force`, `-i`/`--interactive`.
pub fn cp_switches() -> (r: SwitchTable)
    ensures
        r.wf(),
        r.letters@ == "rRfi"@,
        r.canon@ == "rrfi"@,
        strings_view(r.words@) == seq!["--recursive"@, "--force"@, "--interactive"@],
        r.word_canon@ == "rfi"@,
        r.dash_dash == DashDash::Operands,
{
    proof {
        reveal_strlit("rRfi");
        reveal_strlit("rrfi");
        reveal_strlit("--recursive");
        reveal_strlit("--force");
        reveal_strlit("--interactive");
        reveal_strlit("rfi");
    }
    table("rRfi", "rrfi", &["--recursive", "--force", "--interactive"], "rfi", DashDash::Operands)
}

/// `rm`: the same switches as `cp`.
pub fn rm_switches() -> (r: SwitchTable)
    ensures
        r.wf(),
        r.letters@ == "rRfi"@,
        r.canon@ == "rrfi"@,
        strings_view(r.words@) == seq!["--recursive"@, "--force"@, "--interactive"@],
        r.word_canon@ == "rfi"@,
        r.dash_dash == DashDash::Operands,
{
    proof {
        reveal_strlit("rRfi");
        reveal_strlit("rrfi");
        reveal_strlit("--recursive");
        reveal_strlit("--force");
        reveal_strlit("--interactive");
        reveal_strlit("rfi");
    }
    table("rRfi", "rrfi", &["--recursive", "--force", "--interactive"], "rfi", DashDash::Operands)
}

/// `mv`: `-f`/`--force` (accepted, no effect) and `-i`/`--interactive`.
pub fn mv_switches() -> (r: SwitchTable)
    ensures
        r.wf(),
        r.letters@ == "fi"@,
        r.canon@ == "fi"@,
        strings_view(r.words@) == seq!["--force"@, "--interactive"@],
        r.word_canon@ == "fi"@,
        r.dash_dash == DashDash::Operands,
{
    proof {
        reveal_strlit("fi");
        reveal_strlit("fi");
        reveal_strlit("--force");
        reveal_strlit("--interactive");
        reveal_strlit("fi");
    }
    table("fi", "fi", &["--force", "--interactive"], "fi", DashDash::Operands)
}

/// `ln`: `-s`/`--symbolic`, `-f`/`--force`.
pub fn ln_switches() -> (r: SwitchTable)
    ensures
        r.wf(),
        r.letters@ == "sf"@,
        r.canon@ == "sf"@,
        strings_view(r.words@) == seq!["--symbolic"@, "--force"@],
        r.word_canon@ == "sf"@,
        r.dash_dash == DashDash::Operands,
{
    proof {
        reveal_strlit("sf");
        reveal_strlit("sf");
        reveal_strlit("--symbolic");
        reveal_strlit("--force");
        reveal_strlit("sf");
    }
    table("sf", "sf", &["--symbolic", "--force"], "sf", DashDash::Operands)
}

/// `touch`: `-c`/`--no-create`; `--` is skipped.
pub fn touch_switches() -> (r: SwitchTable)
    ensures
        r.wf(),
        r.letters@ == "c"@,
        r.canon@ == "c"@,
        strings_view(r.words@) == seq!["--no-create"@],
        r.word_canon@ == "c"@,
        r.dash_dash == DashDash::Skip,
{
    proof {
        reveal_strlit("c");
        reveal_strlit("c");
        reveal_strlit("--no-create");
        reveal_strlit("c");
    }
    table("c", "c", &["--no-create"], "c", DashDash::Skip)
}

/// `pwd`: `-P`/`--physical`; `--` ends the arguments.
pub fn pwd_switches() -> (r: SwitchTable)
    ensures
        r.wf(),
        r.letters@ == "P"@,
        r.canon@ == "P"@,
        strings_view(r.words@) == seq!["--physical"@],
        r.word_canon@ == "P"@,
        r.dash_dash == DashDash::Stop,
{
    proof {
        reveal_strlit("P");
        reveal_strlit("P");
        reveal_strlit("--physical");
        reveal_strlit("P");
    }
    table("P", "P", &["--physical"], "P", DashDash::Stop)
}

/// Where a copy, move or link of `src` lands: inside `dest` (under the
/// source's final name) where `dest` is taken as a directory, else `dest`.
pub fn landing_path(src: &str, dest: &str, into_dir: bool) -> (r: String)
    ensures
        r@ == (if into_dir {
            joined(dest@, match file_name_of(src@) {
                Some(n) => n,
                None => Seq::<char>::empty(),
            })
        } else {
            dest@
        }),
{
    if into_dir {
        join(dest, base_name(src))
    } else {
        proof {
            reveal_strlit("");
        }
        crate::text::concat_str(dest, "")
    }
}

/// What `cp` and `mv` do with their operands: all but the last are the
/// sources and the last is the destination; with fewer than two operands
/// the destination is missing.
pub enum TransferPlan {
    MissingDestination,
    Transfer { sources: Vec<String>, dest: String },
}

pub fn plan_transfer(operands: &Vec<String>) -> (r: TransferPlan)
    ensures
        match r {
            TransferPlan::MissingDestination => operands@.len() < 2,
            TransferPlan::Transfer { sources, dest } => operands@.len() >= 2
                && strings_view(sources@) == strings_view(operands@).drop_last()
                && dest@ == operands@.last()@,
        },
{
    let n = operands.len();
    if n < 2 {
        return TransferPlan::MissingDestination;
    }
    let mut sources: Vec<String> = Vec::new();
    let mut i: usize = 0;
    while i < n - 1
        invariant
            n == operands@.len(),
            n >= 2,
            i <= n - 1,
            strings_view(sources@) == strings_view(operands@).subrange(0, i as int),
        decreases n - 1 - i,
    {
        let ghost before = sources@;
        sources.push(crate::text::concat_str(operands[i].as_str(), ""));
        proof {
            reveal_strlit("");
            assert(strings_view(sources@) =~= strings_view(before).push(operands@[i as int]@));
            assert(strings_view(operands@).subrange(0, i + 1) =~= strings_view(operands@).subrange(0, i as int).push(
                operands@[i as int]@,
            ));
        }
        i = i + 1;
    }
    proof {
        reveal_strlit("");
        assert(strings_view(operands@).subrange(0, (n - 1) as int) =~= strings_view(operands@).drop_last());
    }
    let dest = crate::text::concat_str(operands[n - 1].as_str(), "");
    TransferPlan::Transfer { sources, dest }
}

/// Whether each source lands inside the destination (under its own name):
/// where there is more than one source, or the destination is a directory.
pub fn lands_inside(sources: usize, dest_is_dir: bool) -> (r: bool)
    ensures
        r == (sources > 1 || dest_is_dir),
{
    sources > 1 || dest_is_dir
}

/// Whether to ask before overwriting or removing a file: `-i` was given
/// and `-f` was not.
pub fn asks_first(interactive: bool, force: bool) -> (r: bool)
    ensures
        r == (interactive && !force),
{
    interactive && !force
}

/// Whether `rm` stops for want of an operand: none was given and `-f` was
/// not set.
pub fn rm_missing_operand(operands: usize, force: bool) -> (r: bool)
    ensures
        r == (operands == 0 && !force),
{
    operands == 0 && !force
}

/// Whether `rm` reports a path it could not remove (and fails): unless
/// `-f` was given.
pub fn rm_reports_failure(force: bool) -> (r: bool)
    ensures
        r == !force,
{
    !force
}

/// Whether an answer to an interactive question is yes: it begins with
/// `y` or `Y`.
pub fn is_yes(answer: &str) -> (r: bool)
    ensures
        r == (answer@.len() > 0 && (answer@[0] == 'y' || answer@[0] == 'Y')),
{
    let cs = chars_of(answer);
    cs.len() > 0 && (cs[0] == 'y' || cs[0] == 'Y')
}

} // verus!
