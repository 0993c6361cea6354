//! Command-line options in the POSIX style: clusters of short flags
//! (`-al`, `-n10`), long options (`--lines=20`, `--lines 20`), `-` as an
//! operand and `--` to end the options.

use vstd::prelude::*;
use crate::text::{chars_of, concat_str, str_eq, string_of_char, string_of_range};

verus! {

broadcast use vstd::std_specs::vec::group_vec_axioms;

pub struct ArgParser {
    options: Vec<OptDef>,
    positional: Vec<String>,
}

pub struct OptDef {
    pub short: Option<char>,
    pub long: Option<&'static str>,
    pub takes_value: bool,
    pub description: &'static str,
}

pub struct ParsedArgs {
    pub options: Vec<(char, Option<String>)>,
    pub positional: Vec<String>,
}

/// An option as the contracts see it: its short name, its long name and
/// whether it takes a value.
pub open spec fn opt_view(o: OptDef) -> (Option<char>, Option<Seq<char>>, bool) {
    (
        o.short,
        match o.long {
            Some(l) => Some(l@),
            None => None,
        },
        o.takes_value,
    )
}

/// A parsed option: its short name and, where it took one, its value.
pub open spec fn parsed_view(p: (char, Option<String>)) -> (char, Option<Seq<char>>) {
    (
        p.0,
        match p.1 {
            Some(v) => Some(v@),
            None => None,
        },
    )
}

pub open spec fn strings_view(s: Seq<String>) -> Seq<Seq<char>> {
    s.map_values(|x: String| x@)
}

pub type OptSpec = (Option<char>, Option<Seq<char>>, bool);

pub type ParsedSpec = (char, Option<Seq<char>>);

/// The first option from index `i` on whose short name is `c`.
pub open spec fn find_short_from(opts: Seq<OptSpec>, c: char, i: int) -> Option<bool>
    decreases opts.len() - i,
{
    if i < 0 || i >= opts.len() {
        None
    } else if opts[i].0 == Some(c) {
        Some(opts[i].2)
    } else {
        find_short_from(opts, c, i + 1)
    }
}

/// The first option from index `i` on whose long name is `name`.
pub open spec fn find_long_from(opts: Seq<OptSpec>, name: Seq<char>, i: int) -> Option<OptSpec>
    decreases opts.len() - i,
{
    if i < 0 || i >= opts.len() {
        None
    } else if opts[i].1 == Some(name) {
        Some(opts[i])
    } else {
        find_long_from(opts, name, i + 1)
    }
}

/// The index of the first `c` in `s`.
pub open spec fn first_index(s: Seq<char>, c: char, i: int) -> Option<int>
    decreases s.len() - i,
{
    if i < 0 || i >= s.len() {
        None
    } else if s[i] == c {
        Some(i)
    } else {
        first_index(s, c, i + 1)
    }
}

pub open spec fn unknown_long(name: Seq<char>) -> Seq<char> {
    "unknown option: --"@ + name
}

pub open spec fn unknown_short(c: char) -> Seq<char> {
    "unknown option: -"@ + seq![c]
}

pub open spec fn long_needs_value(name: Seq<char>) -> Seq<char> {
    "option --"@ + name + " requires an argument"@
}

pub open spec fn short_needs_value(c: char) -> Seq<char> {
    "option -"@ + seq![c] + " requires an argument"@
}

pub type ParseOutcome = Result<(Seq<ParsedSpec>, Seq<Seq<char>>), Seq<char>>;

/// How the arguments from index `k` on are read, given what was read before
/// them: the options found (`out`), the operands (`ops`) and whether `--`
/// has been seen.
pub open spec fn parse_from(
    opts: Seq<OptSpec>,
    args: Seq<Seq<char>>,
    k: int,
    past: bool,
    out: Seq<ParsedSpec>,
    ops: Seq<Seq<char>>,
) -> ParseOutcome
    decreases (if k <= args.len() { args.len() - k } else { 0 }), 1int, 0int,
{
    if k < 0 || k >= args.len() {
        Ok((out, ops))
    } else {
        let a = args[k];
        if past {
            parse_from(opts, args, k + 1, past, out, ops.push(a))
        } else if a == "--"@ {
            parse_from(opts, args, k + 1, true, out, ops)
        } else if a == "-"@ {
            parse_from(opts, args, k + 1, past, out, ops.push(a))
        } else if a.len() >= 2 && a[0] == '-' && a[1] == '-' {
            let long_arg = a.skip(2);
            match first_index(long_arg, '=', 0) {
                Some(e) => {
                    let name = long_arg.take(e);
                    match find_long_from(opts, name, 0) {
                        Some(o) if o.0 is Some => parse_from(
                            opts,
                            args,
                            k + 1,
                            past,
                            out.push((o.0->0, Some(long_arg.skip(e + 1)))),
                            ops,
                        ),
                        _ => Err(unknown_long(name)),
                    }
                },
                None => match find_long_from(opts, long_arg, 0) {
                    None => Err(unknown_long(long_arg)),
                    Some(o) => {
                        let short = match o.0 {
                            Some(s) => s,
                            None => '?',
                        };
                        if o.2 {
                            if k + 1 < args.len() {
                                parse_from(opts, args, k + 2, past, out.push((short, Some(args[k + 1]))), ops)
                            } else {
                                Err(long_needs_value(long_arg))
                            }
                        } else {
                            parse_from(opts, args, k + 1, past, out.push((short, None)), ops)
                        }
                    },
                },
            }
        } else if a.len() > 1 && a[0] == '-' {
            parse_cluster(opts, args, k, 1, out, ops)
        } else {
            parse_from(opts, args, k + 1, past, out, ops.push(a))
        }
    }
}

/// How a cluster of short options `args[k]` is read from its character `i`
/// on, then the arguments after it.
pub open spec fn parse_cluster(
    opts: Seq<OptSpec>,
    args: Seq<Seq<char>>,
    k: int,
    i: int,
    out: Seq<ParsedSpec>,
    ops: Seq<Seq<char>>,
) -> ParseOutcome
    decreases (if k <= args.len() { args.len() - k } else { 0 }), 0int, (if i <= args[k].len() {
        args[k].len() - i
    } else {
        0
    }),
{
    if k < 0 || k >= args.len() {
        Ok((out, ops))
    } else if i < 0 || i >= args[k].len() {
        parse_from(opts, args, k + 1, false, out, ops)
    } else {
        let a = args[k];
        let c = a[i];
        match find_short_from(opts, c, 0) {
            None => Err(unknown_short(c)),
            Some(takes_value) => {
                if takes_value {
                    let rest = a.skip(i + 1);
                    if rest.len() == 0 {
                        if k + 1 < args.len() {
                            parse_from(opts, args, k + 2, false, out.push((c, Some(args[k + 1]))), ops)
                        } else {
                            Err(short_needs_value(c))
                        }
                    } else {
                        parse_from(opts, args, k + 1, false, out.push((c, Some(rest))), ops)
                    }
                } else {
                    parse_cluster(opts, args, k, i + 1, out.push((c, None)), ops)
                }
            },
        }
    }
}

impl ArgParser {
    /// The options, in the order they were added.
    pub closed spec fn spec_options(&self) -> Seq<OptSpec> {
        self.options@.map_values(|o: OptDef| opt_view(o))
    }

    pub fn new() -> (r: Self)
        ensures
            r.spec_options() == Seq::<OptSpec>::empty(),
    {
        let r = ArgParser { options: Vec::new(), positional: Vec::new() };
        assert(r.spec_options() =~= Seq::<OptSpec>::empty());
        r
    }

    /// Adds an option with both a short and a long name.
    pub fn add_opt(self, short: char, long: &'static str, takes_value: bool, description: &'static str) -> (r: Self)
        ensures
            r.spec_options() == self.spec_options().push((Some(short), Some(long@), takes_value)),
    {
        let ghost before = self.options@;
        let mut parser = self;
        parser.options.push(OptDef { short: Some(short), long: Some(long), takes_value, description });
        assert(parser.options@.map_values(|o: OptDef| opt_view(o)) =~= before.map_values(|o: OptDef| opt_view(o)).push(
            (Some(short), Some(long@), takes_value),
        ));
        parser
    }

    /// Reads `args`: the options found, in order, and the operands.
    pub fn parse(&self, args: &[String]) -> (r: Result<ParsedArgs, String>)
        ensures
            match parse_from(self.spec_options(), strings_view(args@), 0, false, Seq::empty(), Seq::empty()) {
                Ok((o, p)) => r matches Ok(x) && x.options@.map_values(|q: (char, Option<String>)| parsed_view(q)) == o
                    && strings_view(x.positional@) == p,
                Err(msg) => r matches Err(m) && m@ == msg,
            },
    {
        let ghost opts = self.spec_options();
        let ghost all = strings_view(args@);
        let mut parsed_opts: Vec<(char, Option<String>)> = Vec::new();
        let mut positional: Vec<String> = Vec::new();
        let mut past_separator = false;
        let n = args.len();
        let mut k: usize = 0;
        proof {
            assert(parsed_opts@.map_values(|q: (char, Option<String>)| parsed_view(q)) =~= Seq::<ParsedSpec>::empty());
            assert(strings_view(positional@) =~= Seq::<Seq<char>>::empty());
        }
        while k < args.len()
            invariant
                opts == self.spec_options(),
                all == strings_view(args@),
                all.len() == args@.len(),
                n == args@.len(),
                k <= args@.len(),
                parse_from(opts, all, 0, false, Seq::empty(), Seq::empty()) == parse_from(
                    opts,
                    all,
                    k as int,
                    past_separator,
                    parsed_opts@.map_values(|q: (char, Option<String>)| parsed_view(q)),
                    strings_view(positional@),
                ),
            decreases args@.len() - k,
        {
            let ghost out0 = parsed_opts@.map_values(|q: (char, Option<String>)| parsed_view(q));
            let ghost ops0 = strings_view(positional@);
            let arg = &args[k];
            let a = chars_of(arg.as_str());
            assert(all[k as int] == a@);
            if past_separator {
                let ghost before = positional@;
                positional.push(arg.clone());
                proof { lemma_push_strings(before, positional@, a@); }
                k = k + 1;
                continue;
            }
            if a.len() == 2 && a[0] == '-' && a[1] == '-' {
                proof { reveal_strlit("--"); }
                assert(a@ =~= "--"@);
                past_separator = true;
                k = k + 1;
                continue;
            }
            proof { reveal_strlit("--"); reveal_strlit("-"); }
            assert(a@ != "--"@);
            if a.len() == 1 && a[0] == '-' {
                assert(a@ =~= "-"@);
                let ghost before = positional@;
                positional.push(arg.clone());
                proof { lemma_push_strings(before, positional@, a@); }
                k = k + 1;
                continue;
            }
            assert(a@ != "-"@);
            if a.len() >= 2 && a[0] == '-' && a[1] == '-' {
                let long_arg = string_of_range(&a, 2, a.len());
                assert(long_arg@ =~= a@.skip(2));
                let eq = first_char_index(&a, '=', 2);
                match eq {
                    Some(e) => {
                        let name = string_of_range(&a, 2, e);
                        let value = string_of_range(&a, e + 1, a.len());
                        proof { lemma_first_index_shift(a@, '=', 2); }
                        assert(name@ =~= a@.skip(2).take(e - 2));
                        assert(value@ =~= a@.skip(2).skip(e - 2 + 1));
                        match self.find_short_for_long(name.as_str()) {
                            Some(short) => {
                                let ghost before = parsed_opts@;
                                parsed_opts.push((short, Some(value)));
                                proof { lemma_push_parsed(before, parsed_opts@); }
                                k = k + 1;
                            },
                            None => {
                                return Err(concat_str("unknown option: --", name.as_str()));
                            },
                        }
                    },
                    None => {
                        proof { lemma_first_index_shift(a@, '=', 2); }
                        match self.find_long(long_arg.as_str()) {
                            Some((short, takes_value)) => {
                                if takes_value {
                                    if k + 1 < args.len() {
                                        let value = args[k + 1].clone();
                                        assert(all[k + 1] == value@);
                                        let ghost before = parsed_opts@;
                                        parsed_opts.push((short, Some(value)));
                                        proof { lemma_push_parsed(before, parsed_opts@); }
                                        k = k + 2;
                                    } else {
                                        let msg = concat_str("option --", long_arg.as_str());
                                        let full = concat_str(msg.as_str(), " requires an argument");
                                        return Err(full);
                                    }
                                } else {
                                    let ghost before = parsed_opts@;
                                    parsed_opts.push((short, None));
                                    proof { lemma_push_parsed(before, parsed_opts@); }
                                    k = k + 1;
                                }
                            },
                            None => {
                                return Err(concat_str("unknown option: --", long_arg.as_str()));
                            },
                        }
                    },
                }
                continue;
            }
            if a.len() > 1 && a[0] == '-' {
                let mut i: usize = 1;
                let mut step: usize = 1;
                loop
                    invariant_except_break
                        1 <= i <= a@.len(),
                        parse_from(opts, all, 0, false, Seq::empty(), Seq::empty()) == parse_cluster(
                            opts,
                            all,
                            k as int,
                            i as int,
                            parsed_opts@.map_values(|q: (char, Option<String>)| parsed_view(q)),
                            strings_view(positional@),
                        ),
                    invariant
                        opts == self.spec_options(),
                        all == strings_view(args@),
                        all.len() == args@.len(),
                        n == args@.len(),
                        k < args@.len(),
                        all[k as int] == a@,
                        !past_separator,
                    ensures
                        step == 1 || (step == 2 && k + 1 < args@.len()),
                        parse_from(opts, all, 0, false, Seq::empty(), Seq::empty()) == parse_from(
                            opts,
                            all,
                            k + step,
                            false,
                            parsed_opts@.map_values(|q: (char, Option<String>)| parsed_view(q)),
                            strings_view(positional@),
                        ),
                    decreases a@.len() - i,
                {
                    if i == a.len() {
                        step = 1;
                        break;
                    }
                    let c = a[i];
                    match self.find_short(c) {
                        Some(takes_value) => {
                            if takes_value {
                                if i + 1 == a.len() {
                                    if k + 1 < n {
                                        let value = args[k + 1].clone();
                                        assert(all[k + 1] == value@);
                                        assert(a@.skip(i + 1) =~= Seq::<char>::empty());
                                        let ghost before = parsed_opts@;
                                        parsed_opts.push((c, Some(value)));
                                        proof { lemma_push_parsed(before, parsed_opts@); }
                                        step = 2;
                                    } else {
                                        assert(a@.skip(i + 1) =~= Seq::<char>::empty());
                                        let msg = concat_str("option -", string_of_char(c).as_str());
                                        let full = concat_str(msg.as_str(), " requires an argument");
                                        return Err(full);
                                    }
                                } else {
                                    let rest = string_of_range(&a, i + 1, a.len());
                                    assert(rest@ =~= a@.skip(i + 1));
                                    let ghost before = parsed_opts@;
                                    parsed_opts.push((c, Some(rest)));
                                    proof { lemma_push_parsed(before, parsed_opts@); }
                                    step = 1;
                                }
                                break;
                            } else {
                                let ghost before = parsed_opts@;
                                parsed_opts.push((c, None));
                                proof { lemma_push_parsed(before, parsed_opts@); }
                            }
                        },
                        None => {
                            return Err(concat_str("unknown option: -", string_of_char(c).as_str()));
                        },
                    }
                    i = i + 1;
                }
                k = k + step;
                continue;
            }
            let ghost before = positional@;
            positional.push(arg.clone());
            proof { lemma_push_strings(before, positional@, a@); }
            k = k + 1;
        }
        Ok(ParsedArgs { options: parsed_opts, positional })
    }

    fn find_short(&self, c: char) -> (r: Option<bool>)
        ensures
            r == find_short_from(self.spec_options(), c, 0),
    {
        let mut i: usize = 0;
        while i < self.options.len()
            invariant
                i <= self.options@.len(),
                find_short_from(self.spec_options(), c, 0) == find_short_from(self.spec_options(), c, i as int),
            decreases self.options@.len() - i,
        {
            let o = &self.options[i];
            assert(self.spec_options()[i as int] == opt_view(self.options@[i as int]));
            if o.short == Some(c) {
                return Some(o.takes_value);
            }
            i = i + 1;
        }
        None
    }

    fn find_long(&self, name: &str) -> (r: Option<(char, bool)>)
        ensures
            match find_long_from(self.spec_options(), name@, 0) {
                Some(o) => r == Some((
                    match o.0 {
                        Some(s) => s,
                        None => '?',
                    },
                    o.2,
                )),
                None => r is None,
            },
    {
        match self.find_long_index(name) {
            Some(i) => {
                let o = &self.options[i];
                let short = match o.short {
                    Some(s) => s,
                    None => '?',
                };
                Some((short, o.takes_value))
            },
            None => None,
        }
    }

    fn find_short_for_long(&self, name: &str) -> (r: Option<char>)
        ensures
            r == match find_long_from(self.spec_options(), name@, 0) {
                Some(o) => o.0,
                None => None,
            },
    {
        match self.find_long_index(name) {
            Some(i) => self.options[i].short,
            None => None,
        }
    }

    /// The index of the first option whose long name is `name`.
    fn find_long_index(&self, name: &str) -> (r: Option<usize>)
        ensures
            match find_long_from(self.spec_options(), name@, 0) {
                Some(o) => r matches Some(i) && i < self.options@.len() && self.spec_options()[i as int] == o,
                None => r is None,
            },
    {
        let mut i: usize = 0;
        while i < self.options.len()
            invariant
                i <= self.options@.len(),
                find_long_from(self.spec_options(), name@, 0) == find_long_from(self.spec_options(), name@, i as int),
            decreases self.options@.len() - i,
        {
            let o = &self.options[i];
            assert(self.spec_options()[i as int] == opt_view(self.options@[i as int]));
            let hit = match o.long {
                Some(l) => str_eq(l, name),
                None => false,
            };
            if hit {
                return Some(i);
            }
            i = i + 1;
        }
        None
    }
}

/// The index of the first `c` in `v` at or after `from`.
pub(crate) fn first_char_index(v: &Vec<char>, c: char, from: usize) -> (r: Option<usize>)
    requires
        from <= v@.len(),
    ensures
        match first_index(v@, c, from as int) {
            Some(i) => r == Some(i as usize) && from <= i < v@.len(),
            None => r is None,
        },
{
    let mut i = from;
    while i < v.len()
        invariant
            from <= i <= v@.len(),
            first_index(v@, c, from as int) == first_index(v@, c, i as int),
        decreases v@.len() - i,
    {
        if v[i] == c {
            return Some(i);
        }
        i = i + 1;
    }
    None
}

proof fn lemma_first_index_shift(s: Seq<char>, c: char, d: int)
    requires
        0 <= d <= s.len(),
    ensures
        match first_index(s, c, d) {
            Some(i) => d <= i < s.len() && first_index(s.skip(d), c, 0) == Some(i - d),
            None => first_index(s.skip(d), c, 0) is None,
        },
{
    lemma_first_index_shift_from(s, c, d, d);
}

proof fn lemma_first_index_shift_from(s: Seq<char>, c: char, d: int, j: int)
    requires
        0 <= d <= j <= s.len(),
    ensures
        match first_index(s, c, j) {
            Some(i) => j <= i < s.len() && first_index(s.skip(d), c, j - d) == Some(i - d),
            None => first_index(s.skip(d), c, j - d) is None,
        },
    decreases s.len() - j,
{
    if j < s.len() {
        assert(s.skip(d)[j - d] == s[j]);
        lemma_first_index_shift_from(s, c, d, j + 1);
    }
}

proof fn lemma_push_parsed(before: Seq<(char, Option<String>)>, after: Seq<(char, Option<String>)>)
    requires
        after.len() == before.len() + 1,
        forall|i: int| 0 <= i < before.len() ==> after[i] == before[i],
    ensures
        after.map_values(|q: (char, Option<String>)| parsed_view(q)) == before.map_values(
            |q: (char, Option<String>)| parsed_view(q),
        ).push(parsed_view(after.last())),
{
    assert(after.map_values(|q: (char, Option<String>)| parsed_view(q)) =~= before.map_values(
        |q: (char, Option<String>)| parsed_view(q),
    ).push(parsed_view(after.last())));
}

proof fn lemma_push_strings(before: Seq<String>, after: Seq<String>, a: Seq<char>)
    requires
        after.len() == before.len() + 1,
        forall|i: int| 0 <= i < before.len() ==> after[i] == before[i],
        after.last()@ == a,
    ensures
        strings_view(after) == strings_view(before).push(a),
{
    assert(strings_view(after) =~= strings_view(before).push(a));
}

impl ParsedArgs {
    pub closed spec fn spec_options(&self) -> Seq<ParsedSpec> {
        self.options@.map_values(|q: (char, Option<String>)| parsed_view(q))
    }

    /// Whether the option `short` was given.
    pub fn has_opt(&self, short: char) -> (r: bool)
        ensures
            r == exists|i: int| 0 <= i < self.options@.len() && (#[trigger] self.options@[i]).0 == short,
    {
        let mut i: usize = 0;
        while i < self.options.len()
            invariant
                i <= self.options@.len(),
                forall|j: int| 0 <= j < i ==> (#[trigger] self.options@[j]).0 != short,
            decreases self.options@.len() - i,
        {
            if self.options[i].0 == short {
                return true;
            }
            i = i + 1;
        }
        false
    }

    /// The value given with the first occurrence of `short`, if it had one.
    pub fn opt_value(&self, short: char) -> (r: Option<&str>)
        ensures
            match first_occurrence(self.options@, short, 0) {
                Some(i) => match self.options@[i].1 {
                    Some(v) => r matches Some(s) && s@ == v@,
                    None => r is None,
                },
                None => r is None,
            },
    {
        let mut i: usize = 0;
        while i < self.options.len()
            invariant
                i <= self.options@.len(),
                first_occurrence(self.options@, short, 0) == first_occurrence(self.options@, short, i as int),
            decreases self.options@.len() - i,
        {
            if self.options[i].0 == short {
                return match &self.options[i].1 {
                    Some(v) => Some(v.as_str()),
                    None => None,
                };
            }
            i = i + 1;
        }
        None
    }

    /// How many times `short` was given.
    pub fn opt_count(&self, short: char) -> (r: usize)
        ensures
            r == occurrences(self.options@, short, self.options@.len() as int),
    {
        let mut n: usize = 0;
        let mut i: usize = 0;
        while i < self.options.len()
            invariant
                i <= self.options@.len(),
                n == occurrences(self.options@, short, i as int),
                n <= i,
            decreases self.options@.len() - i,
        {
            if self.options[i].0 == short {
                n = n + 1;
            }
            i = i + 1;
        }
        n
    }
}

/// The index of the first option from `i` on whose short name is `c`.
pub open spec fn first_occurrence(s: Seq<(char, Option<String>)>, c: char, i: int) -> Option<int>
    decreases s.len() - i,
{
    if i < 0 || i >= s.len() {
        None
    } else if s[i].0 == c {
        Some(i)
    } else {
        first_occurrence(s, c, i + 1)
    }
}

/// How many of the first `n` options have the short name `c`.
pub open spec fn occurrences(s: Seq<(char, Option<String>)>, c: char, n: int) -> nat
    decreases n,
{
    if n <= 0 || n > s.len() {
        0
    } else {
        occurrences(s, c, n - 1) + if s[n - 1].0 == c { 1nat } else { 0nat }
    }
}

} // verus!
