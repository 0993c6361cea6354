//! `xargs`: its options, the command it runs, and the items it takes from
//! each line (or each NUL-terminated chunk) of its input.

use vstd::prelude::*;
use crate::applets::cat::strings_view;
use crate::text::{concat_str, lossy_text, str_eq, trim_text, trimmed, utf8_lossy};

verus! {

broadcast use vstd::std_specs::vec::group_vec_axioms;

#[derive(Debug, Clone)]
pub struct XargsOptions {
    pub null_delimited: bool,
    pub command: Vec<String>,
}

/// The arguments other than `-0`, in order.
pub open spec fn command_words(args: Seq<Seq<char>>) -> Seq<Seq<char>>
    decreases args.len(),
{
    if args.len() == 0 {
        args
    } else {
        let rest = command_words(args.drop_last());
        if args.last() == "-0"@ {
            rest
        } else {
            rest.push(args.last())
        }
    }
}

/// Whether `-0` is among the arguments.
pub open spec fn has_null_flag(args: Seq<Seq<char>>) -> bool {
    exists|i: int| 0 <= i < args.len() && #[trigger] args[i] == "-0"@
}

impl XargsOptions {
    /// Reads `xargs`'s arguments: `-0` anywhere asks for NUL-terminated
    /// items, the others are the command, which is `echo` where none is
    /// given.
    pub fn parse(args: &[String]) -> (r: XargsOptions)
        ensures
            r.null_delimited == has_null_flag(strings_view(args@)),
            strings_view(r.command@) == (if command_words(strings_view(args@)).len() == 0 {
                seq!["echo"@]
            } else {
                command_words(strings_view(args@))
            }),
    {
        let ghost all = strings_view(args@);
        let mut null_delimited = false;
        let mut command: Vec<String> = Vec::new();
        let mut k: usize = 0;
        assert(all.subrange(0, 0) =~= Seq::<Seq<char>>::empty());
        while k < args.len()
            invariant
                k <= args@.len(),
                all == strings_view(args@),
                strings_view(command@) == command_words(all.subrange(0, k as int)),
                null_delimited == has_null_flag(all.subrange(0, k as int)),
            decreases args@.len() - k,
        {
            let ghost pre = all.subrange(0, k as int);
            let ghost post = all.subrange(0, k + 1);
            assert(post.drop_last() =~= pre);
            assert(post.last() == args@[k as int]@);
            if str_eq(args[k].as_str(), "-0") {
                null_delimited = true;
                assert(post[k as int] == "-0"@);
            } else {
                let ghost before = command@;
                command.push(args[k].clone());
                assert(strings_view(command@) =~= strings_view(before).push(args@[k as int]@));
                if !null_delimited {
                    assert forall|i: int| 0 <= i < post.len() implies #[trigger] post[i] != "-0"@ by {
                        if i < k {
                            assert(post[i] == pre[i]);
                        }
                    }
                }
            }
            proof {
                if null_delimited && has_null_flag(pre) {
                    let i = choose|i: int| 0 <= i < pre.len() && #[trigger] pre[i] == "-0"@;
                    assert(post[i] == pre[i]);
                }
                if !null_delimited && has_null_flag(post) {
                    let i = choose|i: int| 0 <= i < post.len() && #[trigger] post[i] == "-0"@;
                    if i < k {
                        assert(post[i] == pre[i]);
                    }
                }
            }
            k = k + 1;
        }
        assert(all.subrange(0, args@.len() as int) =~= all);
        if command.len() == 0 {
            proof {
                reveal_strlit("");
            }
            command.push(concat_str("echo", ""));
            assert(strings_view(command@) =~= seq!["echo"@]);
        }
        XargsOptions { null_delimited, command }
    }
}

/// The item a line gives: the line trimmed, unless nothing is left.
pub open spec fn line_item_of(line: Seq<char>) -> Option<Seq<char>> {
    let t = trimmed(line);
    if t.len() > 0 {
        Some(t)
    } else {
        None
    }
}

pub fn line_item(line: &str) -> (r: Option<String>)
    ensures
        match line_item_of(line@) {
            Some(t) => r matches Some(s) && s@ == t,
            None => r is None,
        },
{
    let t = trim_text(line);
    if !t.as_str().is_empty() {
        Some(t)
    } else {
        None
    }
}

/// `s` without its trailing NUL characters.
pub open spec fn without_trailing_nuls(s: Seq<char>) -> Seq<char>
    decreases s.len(),
{
    if s.len() > 0 && s.last() == '\0' {
        without_trailing_nuls(s.drop_last())
    } else {
        s
    }
}

/// The item a NUL-terminated chunk gives: its text (invalid UTF-8
/// replaced), without trailing NULs, trimmed, unless nothing is left.
pub open spec fn null_item_of(chunk: Seq<u8>) -> Option<Seq<char>> {
    let t = trimmed(without_trailing_nuls(utf8_lossy(chunk)));
    if t.len() > 0 {
        Some(t)
    } else {
        None
    }
}

pub fn null_item(chunk: &[u8]) -> (r: Option<String>)
    ensures
        match null_item_of(chunk@) {
            Some(t) => r matches Some(s) && s@ == t,
            None => r is None,
        },
{
    let text = lossy_text(chunk);
    let cs = crate::text::chars_of(text.as_str());
    let mut end = cs.len();
    assert(cs@.subrange(0, end as int) =~= cs@);
    while end > 0 && cs[end - 1] == '\0'
        invariant
            end <= cs@.len(),
            cs@ == utf8_lossy(chunk@),
            without_trailing_nuls(utf8_lossy(chunk@)) == without_trailing_nuls(cs@.subrange(0, end as int)),
        decreases end,
    {
        assert(cs@.subrange(0, end as int).drop_last() =~= cs@.subrange(0, end - 1));
        end = end - 1;
    }
    let kept = crate::text::string_of_range(&cs, 0, end);
    assert(kept@ == without_trailing_nuls(utf8_lossy(chunk@)));
    line_item(kept.as_str())
}

/// The arguments of the command `xargs` runs: its words, then the items.
pub fn command_line(options: &XargsOptions, items: &[String]) -> (r: Vec<String>)
    ensures
        strings_view(r@) == strings_view(options.command@) + strings_view(items@),
{
    let mut out: Vec<String> = Vec::new();
    let mut i: usize = 0;
    while i < options.command.len()
        invariant
            i <= options.command@.len(),
            strings_view(out@) == strings_view(options.command@).subrange(0, i as int),
        decreases options.command@.len() - i,
    {
        let ghost before = out@;
        out.push(options.command[i].clone());
        assert(strings_view(out@) =~= strings_view(before).push(options.command@[i as int]@));
        assert(strings_view(options.command@).subrange(0, i + 1) =~= strings_view(options.command@).subrange(0, i as int).push(
            options.command@[i as int]@,
        ));
        i = i + 1;
    }
    assert(strings_view(options.command@).subrange(0, options.command@.len() as int) =~= strings_view(options.command@));
    let mut j: usize = 0;
    while j < items.len()
        invariant
            j <= items@.len(),
            strings_view(out@) == strings_view(options.command@) + strings_view(items@).subrange(0, j as int),
        decreases items@.len() - j,
    {
        let ghost before = out@;
        out.push(items[j].clone());
        assert(strings_view(out@) =~= strings_view(before).push(items@[j as int]@));
        assert(strings_view(items@).subrange(0, j + 1) =~= strings_view(items@).subrange(0, j as int).push(items@[j as int]@));
        j = j + 1;
    }
    assert(strings_view(items@).subrange(0, items@.len() as int) =~= strings_view(items@));
    out
}

} // verus!
