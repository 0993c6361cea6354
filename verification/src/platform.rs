//! What the library asks of an operating system (mounting, host name,
//! process list, page size), the platform for which none of it is
//! available, and the reading of the process table that `ps` prints.

use vstd::prelude::*;
use crate::error::{ProteusError, ProteusResult};
use crate::regex::{char_is_whitespace, whitespace};
use crate::text::{chars_of, concat_str, lossy_text, parse_u32, parse_u64, parse_unsigned, split_chars, split_on, utf8_lossy};

verus! {

broadcast use vstd::std_specs::vec::group_vec_axioms;

#[derive(Debug, Clone, PartialEq, Eq)]
pub struct ProcessInfo {
    pub pid: u32,
    pub parent_pid: u32,
    pub command: String,
    pub state: String,
    pub memory_bytes: u64,
}

#[derive(Debug, Clone, PartialEq, Eq)]
pub struct MountInfo {
    pub source: String,
    pub target: String,
    pub fstype: String,
    pub flags: u64,
}

/// The services of an operating system that the applets use.
pub trait Platform {
    fn name(&self) -> &'static str;

    fn mount(&self, source: &str, target: &str, fstype: &str, flags: u64) -> ProteusResult<()>;

    fn unmount(&self, target: &str) -> ProteusResult<()>;

    fn sysctl(&self, name: &str) -> ProteusResult<String>;

    fn process_list(&self) -> ProteusResult<Vec<ProcessInfo>>;

    fn hostname(&self) -> ProteusResult<String>;

    fn set_hostname(&self, hostname: &str) -> ProteusResult<()>;

    fn page_size(&self) -> usize;
}

/// A system on which none of the services is available.
pub struct UnsupportedPlatform;

fn other_error(msg: &str) -> (r: ProteusError)
    ensures
        r.is_other(msg@),
{
    proof {
        reveal_strlit("");
    }
    ProteusError::Other(concat_str(msg, ""))
}

impl Platform for UnsupportedPlatform {
    fn name(&self) -> (r: &'static str)
        ensures
            r@ == "unsupported"@,
    {
        "unsupported"
    }

    fn mount(&self, source: &str, target: &str, fstype: &str, flags: u64) -> (r: ProteusResult<()>)
        ensures
            r matches Err(e) && e.is_other("mount is unsupported on this platform"@),
    {
        Err(other_error("mount is unsupported on this platform"))
    }

    fn unmount(&self, target: &str) -> (r: ProteusResult<()>)
        ensures
            r matches Err(e) && e.is_other("unmount is unsupported on this platform"@),
    {
        Err(other_error("unmount is unsupported on this platform"))
    }

    fn sysctl(&self, name: &str) -> (r: ProteusResult<String>)
        ensures
            r matches Err(e) && e.is_other("sysctl is unsupported on this platform"@),
    {
        Err(other_error("sysctl is unsupported on this platform"))
    }

    fn process_list(&self) -> (r: ProteusResult<Vec<ProcessInfo>>)
        ensures
            r matches Err(e) && e.is_other("process listing is unsupported on this platform"@),
    {
        Err(other_error("process listing is unsupported on this platform"))
    }

    fn hostname(&self) -> (r: ProteusResult<String>)
        ensures
            r matches Err(e) && e.is_other("hostname is unsupported on this platform"@),
    {
        Err(other_error("hostname is unsupported on this platform"))
    }

    fn set_hostname(&self, hostname: &str) -> (r: ProteusResult<()>)
        ensures
            r matches Err(e) && e.is_other("set_hostname is unsupported on this platform"@),
    {
        Err(other_error("set_hostname is unsupported on this platform"))
    }

    fn page_size(&self) -> (r: usize)
        ensures
            r == 4096,
    {
        4096
    }
}

/// `line` without one final carriage return.
pub open spec fn without_cr(line: Seq<char>) -> Seq<char> {
    if line.len() > 0 && line.last() == '\r' {
        line.drop_last()
    } else {
        line
    }
}

/// `str::lines`: the pieces between newlines, each without a carriage
/// return before its newline, and no empty piece after a final newline.
pub open spec fn text_lines(s: Seq<char>) -> Seq<Seq<char>> {
    let p = split_chars(s, '\n');
    let body = p.drop_last().map_values(|l: Seq<char>| without_cr(l));
    if p.last().len() > 0 {
        body.push(p.last())
    } else {
        body
    }
}

/// The end of the word that begins at `i`.
pub open spec fn word_end(s: Seq<char>, i: int) -> int
    decreases s.len() - i,
{
    if i < 0 || i >= s.len() || whitespace(s[i]) {
        i
    } else {
        word_end(s, i + 1)
    }
}

pub proof fn lemma_word_end(s: Seq<char>, i: int)
    requires
        0 <= i,
    ensures
        i <= word_end(s, i),
        word_end(s, i) <= s.len() || word_end(s, i) == i,
        0 <= i < s.len() && !whitespace(s[i]) ==> i < word_end(s, i),
    decreases s.len() - i,
{
    if i < s.len() && !whitespace(s[i]) {
        lemma_word_end(s, i + 1);
    }
}

/// `str::split_whitespace` from position `i`: the runs of characters that
/// are not white space.
pub open spec fn words_from(s: Seq<char>, i: int) -> Seq<Seq<char>>
    decreases s.len() - i,
{
    if i < 0 || i >= s.len() {
        Seq::empty()
    } else if whitespace(s[i]) {
        words_from(s, i + 1)
    } else {
        proof {
            lemma_word_end(s, i);
        }
        let j = word_end(s, i);
        seq![s.subrange(i, j)] + words_from(s, j)
    }
}

/// The words joined with single spaces.
pub open spec fn joined_words(w: Seq<Seq<char>>) -> Seq<char>
    decreases w.len(),
{
    if w.len() == 0 {
        Seq::empty()
    } else if w.len() == 1 {
        w[0]
    } else {
        joined_words(w.drop_last()) + " "@ + w.last()
    }
}

pub struct ProcessView {
    pub pid: u32,
    pub parent_pid: u32,
    pub command: Seq<char>,
    pub state: Seq<char>,
    pub memory_bytes: u64,
}

pub open spec fn process_view(p: ProcessInfo) -> ProcessView {
    ProcessView {
        pid: p.pid,
        parent_pid: p.parent_pid,
        command: p.command@,
        state: p.state@,
        memory_bytes: p.memory_bytes,
    }
}

pub open spec fn number_or_zero(s: Seq<char>, max: nat) -> nat {
    match parse_unsigned(s, max) {
        Some(v) => v,
        None => 0,
    }
}

/// A line of `ps -o pid=,ppid=,state=,rss=,comm=`: five or more words;
/// a number that does not parse counts as 0, the resident size is in KiB
/// (multiplied by 1024 modulo 2^64), and the command is the remaining
/// words joined by spaces.
pub open spec fn process_of(line: Seq<char>) -> Option<ProcessView> {
    let w = words_from(line, 0);
    if w.len() < 5 {
        None
    } else {
        Some(
            ProcessView {
                pid: number_or_zero(w[0], u32::MAX as nat) as u32,
                parent_pid: number_or_zero(w[1], u32::MAX as nat) as u32,
                state: w[2],
                memory_bytes: ((number_or_zero(w[3], u64::MAX as nat) * 1024) % 0x1_0000_0000_0000_0000) as u64,
                command: joined_words(w.skip(4)),
            },
        )
    }
}

/// The processes of a table, line by line, skipping lines with fewer than
/// five words.
pub open spec fn processes_of(lines: Seq<Seq<char>>) -> Seq<ProcessView>
    decreases lines.len(),
{
    if lines.len() == 0 {
        Seq::empty()
    } else {
        let rest = processes_of(lines.drop_last());
        match process_of(lines.last()) {
            Some(p) => rest.push(p),
            None => rest,
        }
    }
}

fn words_of(cs: &Vec<char>) -> (r: Vec<String>)
    ensures
        r@.map_values(|s: String| s@) == words_from(cs@, 0),
{
    let n = cs.len();
    let mut out: Vec<String> = Vec::new();
    let mut i: usize = 0;
    assert(out@.map_values(|s: String| s@) =~= Seq::<Seq<char>>::empty());
    while i < n
        invariant
            i <= n,
            n == cs@.len(),
            out@.map_values(|s: String| s@) + words_from(cs@, i as int) == words_from(cs@, 0),
        decreases n - i,
    {
        if char_is_whitespace(cs[i]) {
            i = i + 1;
        } else {
            let mut j = i;
            proof {
                lemma_word_end(cs@, i as int);
            }
            while j < n && !char_is_whitespace(cs[j])
                invariant
                    i <= j <= n,
                    n == cs@.len(),
                    word_end(cs@, i as int) == word_end(cs@, j as int),
                decreases n - j,
            {
                j = j + 1;
            }
            let w = crate::text::string_of_range(cs, i, j);
            let ghost before = out@;
            out.push(w);
            assert(out@.map_values(|s: String| s@) =~= before.map_values(|s: String| s@).push(cs@.subrange(i as int, j as int)));
            assert(words_from(cs@, i as int) == seq![cs@.subrange(i as int, j as int)] + words_from(cs@, j as int));
            assert(out@.map_values(|s: String| s@) + words_from(cs@, j as int) =~= before.map_values(|s: String| s@) + words_from(cs@, i as int));
            i = j;
        }
    }
    assert(out@.map_values(|s: String| s@) =~= words_from(cs@, 0));
    out
}

fn join_words(w: &Vec<String>, from: usize) -> (r: String)
    requires
        from <= w@.len(),
    ensures
        r@ == joined_words(w@.map_values(|s: String| s@).skip(from as int)),
{
    let ghost all = w@.map_values(|s: String| s@);
    let mut out = String::new();
    let mut k = from;
    assert(all.skip(from as int).take(0) =~= Seq::<Seq<char>>::empty());
    while k < w.len()
        invariant
            from <= k <= w@.len(),
            all == w@.map_values(|s: String| s@),
            out@ == joined_words(all.skip(from as int).take(k - from)),
        decreases w@.len() - k,
    {
        let ghost prefix = all.skip(from as int).take(k + 1 - from);
        assert(prefix.drop_last() =~= all.skip(from as int).take(k - from));
        assert(prefix.last() == w@[k as int]@);
        if k > from {
            out.append(" ");
        }
        out.append(w[k].as_str());
        proof {
            reveal_strlit(" ");
            if k == from {
                assert(out@ =~= prefix[0]);
            } else {
                assert(out@ =~= joined_words(prefix.drop_last()) + " "@ + prefix.last());
            }
        }
        k = k + 1;
    }
    assert(all.skip(from as int).take(w@.len() - from) =~= all.skip(from as int));
    out
}

/// The process on one line of the table, or `None` for a line with fewer
/// than five words.
pub fn parse_process_line(line: &str) -> (r: Option<ProcessInfo>)
    ensures
        match process_of(line@) {
            Some(p) => r matches Some(x) && process_view(x) == p,
            None => r is None,
        },
{
    let cs = chars_of(line);
    let w = words_of(&cs);
    let ghost wv = w@.map_values(|s: String| s@);
    if w.len() < 5 {
        return None;
    }
    assert(wv[0] == w@[0]@ && wv[1] == w@[1]@ && wv[2] == w@[2]@ && wv[3] == w@[3]@);
    let pid = match parse_u32(w[0].as_str()) {
        Some(v) => v,
        None => 0,
    };
    let parent_pid = match parse_u32(w[1].as_str()) {
        Some(v) => v,
        None => 0,
    };
    let kib = match parse_u64(w[3].as_str()) {
        Some(v) => v,
        None => 0,
    };
    let memory_bytes = kib.wrapping_mul(1024);
    let command = join_words(&w, 4);
    let state = w[2].clone();
    proof {
        assert(memory_bytes == ((kib as nat * 1024) % 0x1_0000_0000_0000_0000) as u64);
    }
    Some(ProcessInfo { pid, parent_pid, command, state, memory_bytes })
}

/// The processes in the output of `ps`.
pub fn parse_process_list(output: &[u8]) -> (r: Vec<ProcessInfo>)
    ensures
        r@.map_values(|p: ProcessInfo| process_view(p)) == processes_of(text_lines(utf8_lossy(output@))),
{
    let text = lossy_text(output);
    let cs = chars_of(text.as_str());
    let pieces = split_on(cs.as_slice(), '\n');
    let ghost p = split_chars(cs@, '\n');
    proof {
        crate::text::lemma_split_chars_nonempty(cs@, '\n');
    }
    let ghost lines = text_lines(cs@);
    let mut out: Vec<ProcessInfo> = Vec::new();
    let count = pieces.len();
    let last_len = pieces[count - 1].len();
    let limit = if last_len > 0 {
        count
    } else {
        count - 1
    };
    let mut i: usize = 0;
    assert(out@.map_values(|x: ProcessInfo| process_view(x)) =~= processes_of(lines.take(0)));
    while i < limit
        invariant
            i <= count,
            count == pieces@.len(),
            count == p.len(),
            count >= 1,
            forall|k: int| 0 <= k < pieces@.len() ==> #[trigger] pieces@[k]@ == p[k],
            last_len == p.last().len(),
            lines == text_lines(cs@),
            p == split_chars(cs@, '\n'),
            lines.len() == (if last_len > 0 { count as int } else { count - 1 }),
            limit == lines.len(),
            i <= limit,
            limit <= count,
            out@.map_values(|x: ProcessInfo| process_view(x)) == processes_of(lines.take(i as int)),
            forall|k: int| 0 <= k < count - 1 ==> #[trigger] lines[k] == without_cr(p[k]),
            last_len > 0 ==> lines[count - 1] == p.last(),
        decreases count - i,
    {
        let piece = &pieces[i];
        let n = piece.len();
        let line = if i + 1 < count && n > 0 && piece[n - 1] == '\r' {
            crate::text::string_of_range(piece, 0, n - 1)
        } else {
            crate::text::string_of_range(piece, 0, n)
        };
        assert(line@ == lines[i as int]) by {
            if i + 1 < count {
                assert(lines[i as int] == without_cr(p[i as int]));
                if n > 0 && piece@[n - 1] == '\r' {
                    assert(line@ =~= p[i as int].drop_last());
                }
            }
        }
        let ghost before = out@;
        assert(lines.take(i + 1).drop_last() =~= lines.take(i as int));
        match parse_process_line(line.as_str()) {
            Some(info) => {
                let ghost iv = process_view(info);
                out.push(info);
                assert(out@.map_values(|x: ProcessInfo| process_view(x)) =~= before.map_values(|x: ProcessInfo| process_view(x)).push(
                    iv,
                ));
            },
            None => {},
        }
        i = i + 1;
    }
    assert(lines.take(lines.len() as int) =~= lines);
    out
}

} // verus!
