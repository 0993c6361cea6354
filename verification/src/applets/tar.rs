//! `tar`: its options, the 512-byte ustar header it writes for a file, the
//! padding to whole blocks, and the walk over an archive's blocks that
//! finds each entry's name, kind and data.

use vstd::prelude::*;
use vstd::string::StringSliceAdditionalSpecFns;
use crate::applets::cat::{ascii_bytes, ascii_of, strings_view};
use crate::permissions::{all_octal, is_octal_digit, octal_value};
use crate::regex::whitespace;
use crate::text::{lossy_text, trim_text, trimmed, utf8_lossy, chars_of, concat_str, digit_char, octal, octal_string, pad_left, pad_left_string, push_char, str_eq, string_of_range, unsigned_body};

verus! {

broadcast use vstd::std_specs::vec::group_vec_axioms;

// ---------------------------------------------------------------------------
// Options
// ---------------------------------------------------------------------------

#[derive(Debug, Clone)]
pub struct TarOptions {
    pub create: bool,
    pub extract: bool,
    pub archive: String,
    pub operands: Vec<String>,
}

/// Why a command line was refused; each ends the run with status 2.
#[derive(Debug, Clone, Copy, PartialEq, Eq, Structural)]
pub enum TarUsage {
    MissingArchiveArgument,
    UnsupportedOption(char),
    NotExactlyOneMode,
    MissingArchive,
}

/// The switches `-c`, `-x` and the archive named by `-f`.
pub type TarState = (bool, bool, Option<Seq<char>>);

/// The letters of a cluster from position `i`; `f` takes the argument at
/// `next` (and each later `f` the one after). The result holds the new
/// state and the index of the first argument not taken.
pub open spec fn tar_cluster(a: Seq<char>, i: int, args: Seq<Seq<char>>, next: int, st: TarState) -> Result<(TarState, int), TarUsage>
    decreases a.len() - i,
{
    if i < 0 || i >= a.len() {
        Ok((st, next))
    } else if a[i] == 'c' {
        tar_cluster(a, i + 1, args, next, (true, st.1, st.2))
    } else if a[i] == 'x' {
        tar_cluster(a, i + 1, args, next, (st.0, true, st.2))
    } else if a[i] == 'f' {
        if 0 <= next < args.len() {
            tar_cluster(a, i + 1, args, next + 1, (st.0, st.1, Some(args[next])))
        } else {
            Err(TarUsage::MissingArchiveArgument)
        }
    } else {
        Err(TarUsage::UnsupportedOption(a[i]))
    }
}

pub proof fn lemma_cluster_bounds(a: Seq<char>, i: int, args: Seq<Seq<char>>, next: int, st: TarState)
    requires
        0 <= next <= args.len(),
    ensures
        tar_cluster(a, i, args, next, st) matches Ok((_, n)) ==> next <= n <= args.len(),
    decreases a.len() - i,
{
    if i < 0 || i >= a.len() {
    } else if a[i] == 'c' {
        lemma_cluster_bounds(a, i + 1, args, next, (true, st.1, st.2));
    } else if a[i] == 'x' {
        lemma_cluster_bounds(a, i + 1, args, next, (st.0, true, st.2));
    } else if a[i] == 'f' {
        if 0 <= next < args.len() {
            lemma_cluster_bounds(a, i + 1, args, next + 1, (st.0, st.1, Some(args[next])));
        }
    }
}

/// How `tar` reads its arguments from index `k` on: `-c`, `-x`, `-f PATH`,
/// clusters of these letters, and operands.
pub open spec fn tar_args(args: Seq<Seq<char>>, k: int, st: TarState, ops: Seq<Seq<char>>) -> Result<(TarState, Seq<Seq<char>>), TarUsage>
    decreases args.len() - k,
{
    if k < 0 || k >= args.len() {
        Ok((st, ops))
    } else {
        let a = args[k];
        if a == "-c"@ {
            tar_args(args, k + 1, (true, st.1, st.2), ops)
        } else if a == "-x"@ {
            tar_args(args, k + 1, (st.0, true, st.2), ops)
        } else if a == "-f"@ {
            if k + 1 < args.len() {
                tar_args(args, k + 2, (st.0, st.1, Some(args[k + 1])), ops)
            } else {
                Err(TarUsage::MissingArchiveArgument)
            }
        } else if a.len() > 0 && a[0] == '-' {
            proof {
                lemma_cluster_bounds(a, 1, args, k + 1, st);
            }
            match tar_cluster(a, 1, args, k + 1, st) {
                Ok((st2, next)) => tar_args(args, next, st2, ops),
                Err(e) => Err(e),
            }
        } else {
            tar_args(args, k + 1, st, ops.push(a))
        }
    }
}

/// The whole command line: exactly one of `-c` and `-x`, and an archive.
pub open spec fn tar_parse(args: Seq<Seq<char>>) -> Result<(bool, Seq<char>, Seq<Seq<char>>), TarUsage> {
    match tar_args(args, 0, (false, false, None), Seq::empty()) {
        Err(e) => Err(e),
        Ok((st, ops)) => if st.0 == st.1 {
            Err(TarUsage::NotExactlyOneMode)
        } else {
            match st.2 {
                None => Err(TarUsage::MissingArchive),
                Some(p) => Ok((st.0, p, ops)),
            }
        },
    }
}

pub open spec fn state_view(create: bool, extract: bool, archive: Option<String>) -> TarState {
    (create, extract, match archive {
        Some(s) => Some(s@),
        None => None,
    })
}

fn apply_cluster(
    cs: &Vec<char>,
    args: &[String],
    next: usize,
    create: bool,
    extract: bool,
    archive: Option<String>,
) -> (r: Result<(bool, bool, Option<String>, usize), TarUsage>)
    requires
        cs@.len() >= 1,
        next <= args@.len(),
    ensures
        match tar_cluster(cs@, 1, strings_view(args@), next as int, state_view(create, extract, archive)) {
            Ok((st, n)) => r matches Ok(x) && state_view(x.0, x.1, x.2) == st && x.3 == n,
            Err(e) => r == Err::<(bool, bool, Option<String>, usize), TarUsage>(e),
        },
{
    let ghost all = strings_view(args@);
    let ghost st0 = state_view(create, extract, archive);
    let mut c = create;
    let mut x = extract;
    let mut f = archive;
    let mut n = next;
    let mut i: usize = 1;
    while i < cs.len()
        invariant
            1 <= i <= cs@.len(),
            n <= args@.len(),
            all == strings_view(args@),
            st0 == state_view(create, extract, archive),
            tar_cluster(cs@, 1, all, next as int, st0) == tar_cluster(cs@, i as int, all, n as int, state_view(c, x, f)),
        decreases cs@.len() - i,
    {
        let ch = cs[i];
        if ch == 'c' {
            c = true;
        } else if ch == 'x' {
            x = true;
        } else if ch == 'f' {
            if n < args.len() {
                assert(all[n as int] == args@[n as int]@);
                assert(cs@[i as int] == 'f');
                f = Some(args[n].clone());
                n = n + 1;
            } else {
                assert(cs@[i as int] == 'f' && all.len() == args@.len());
                return Err(TarUsage::MissingArchiveArgument);
            }
        } else {
            assert(cs@[i as int] == ch);
            return Err(TarUsage::UnsupportedOption(ch));
        }
        i = i + 1;
    }
    Ok((c, x, f, n))
}

impl TarOptions {
    /// Reads `tar`'s arguments.
    pub fn parse(args: &[String]) -> (r: Result<TarOptions, TarUsage>)
        ensures
            match tar_parse(strings_view(args@)) {
                Ok((create, archive, ops)) => r matches Ok(o) && o.create == create && o.extract == !create
                    && o.archive@ == archive && strings_view(o.operands@) == ops,
                Err(e) => r == Err::<TarOptions, TarUsage>(e),
            },
    {
        let ghost all = strings_view(args@);
        let mut create = false;
        let mut extract = false;
        let mut archive: Option<String> = None;
        let mut operands: Vec<String> = Vec::new();
        let n = args.len();
        let mut k: usize = 0;
        assert(strings_view(operands@) =~= Seq::<Seq<char>>::empty());
        while k < n
            invariant
                k <= n,
                n == args@.len(),
                all == strings_view(args@),
                tar_args(all, 0, (false, false, None), Seq::empty()) == tar_args(
                    all,
                    k as int,
                    state_view(create, extract, archive),
                    strings_view(operands@),
                ),
            decreases n - k,
        {
            let a = args[k].as_str();
            assert(all[k as int] == a@);
            if str_eq(a, "-c") {
                create = true;
                k = k + 1;
            } else if str_eq(a, "-x") {
                extract = true;
                k = k + 1;
            } else if str_eq(a, "-f") {
                if k + 1 < n {
                    assert(all[k + 1] == args@[k + 1]@);
                    archive = Some(args[k + 1].clone());
                    k = k + 2;
                } else {
                    return Err(TarUsage::MissingArchiveArgument);
                }
            } else {
                let cs = chars_of(a);
                if cs.len() > 0 && cs[0] == '-' {
                    proof {
                        lemma_cluster_bounds(a@, 1, all, k + 1, state_view(create, extract, archive));
                    }
                    match apply_cluster(&cs, args, k + 1, create, extract, archive) {
                        Ok((c2, x2, f2, next)) => {
                            create = c2;
                            extract = x2;
                            archive = f2;
                            k = next;
                        },
                        Err(e) => {
                            return Err(e);
                        },
                    }
                } else {
                    let ghost before = operands@;
                    operands.push(args[k].clone());
                    assert(strings_view(operands@) =~= strings_view(before).push(a@));
                    k = k + 1;
                }
            }
        }
        if create == extract {
            return Err(TarUsage::NotExactlyOneMode);
        }
        match archive {
            None => Err(TarUsage::MissingArchive),
            Some(p) => Ok(TarOptions { create, extract, archive: p, operands }),
        }
    }
}

pub open spec fn tar_usage_message(e: TarUsage) -> Seq<char> {
    match e {
        TarUsage::MissingArchiveArgument => "tar: option requires an argument -- 'f'"@,
        TarUsage::UnsupportedOption(c) => "tar: unsupported option -- '"@ + seq![c, '\''],
        TarUsage::NotExactlyOneMode => "tar: specify exactly one of -c or -x"@,
        TarUsage::MissingArchive => "tar: missing archive path (-f)"@,
    }
}

impl TarUsage {
    pub fn message(&self) -> (r: String)
        ensures
            r@ == tar_usage_message(*self),
    {
        proof {
            reveal_strlit("");
            reveal_strlit("tar: unsupported option -- '");
        }
        match self {
            TarUsage::MissingArchiveArgument => concat_str("tar: option requires an argument -- 'f'", ""),
            TarUsage::UnsupportedOption(c) => {
                let mut s = concat_str("tar: unsupported option -- '", "");
                push_char(&mut s, *c);
                push_char(&mut s, '\'');
                s
            },
            TarUsage::NotExactlyOneMode => concat_str("tar: specify exactly one of -c or -x", ""),
            TarUsage::MissingArchive => concat_str("tar: missing archive path (-f)", ""),
        }
    }

    pub fn code(&self) -> (r: i32)
        ensures
            r == 2,
    {
        2
    }
}

// ---------------------------------------------------------------------------
// Writing
// ---------------------------------------------------------------------------

/// `h` with `bytes` written from `start`, at most `width` of them.
pub open spec fn put(h: Seq<u8>, start: int, width: int, bytes: Seq<u8>) -> Seq<u8> {
    Seq::new(h.len(), |i: int| if start <= i < start + width && i - start < bytes.len() { bytes[i - start] } else { h[i] })
}

/// `v` in octal, padded with zeros to `width` digits, as ASCII bytes.
pub open spec fn octal_field(v: nat, width: nat) -> Seq<u8> {
    ascii_bytes(pad_left(octal(v), width, '0'))
}

pub open spec fn byte_sum(s: Seq<u8>) -> nat
    decreases s.len(),
{
    if s.len() == 0 {
        0
    } else {
        byte_sum(s.drop_last()) + (s.last() as nat)
    }
}

/// The header before its checksum: name, mode, owner and group 0, size,
/// time 0, the checksum field as spaces, type `0`, and the `ustar` magic
/// and version.
pub open spec fn header_draft(path: Seq<u8>, size: u64, mode: u32) -> Seq<u8> {
    let h0 = Seq::new(512, |_i: int| 0u8);
    let h1 = put(h0, 0, 100, path);
    let h2 = put(h1, 100, 8, octal_field(mode as nat, 7));
    let h3 = put(h2, 108, 8, octal_field(0, 7));
    let h4 = put(h3, 116, 8, octal_field(0, 7));
    let h5 = put(h4, 124, 12, octal_field(size as nat, 11));
    let h6 = put(h5, 136, 12, octal_field(0, 11));
    let h7 = put(h6, 148, 8, Seq::new(8, |_i: int| 32u8));
    let h8 = h7.update(156, 48u8);
    let h9 = put(h8, 257, 6, seq![117u8, 115u8, 116u8, 97u8, 114u8, 0u8]);
    put(h9, 263, 2, seq![48u8, 48u8])
}

/// The ustar header for a regular file: the draft with the sum of its
/// bytes written as six octal digits, a NUL and a space into the checksum
/// field.
pub open spec fn header_of(path: Seq<u8>, size: u64, mode: u32) -> Seq<u8> {
    let d = header_draft(path, size, mode);
    put(d, 148, 8, octal_field(byte_sum(d), 6)).update(154, 0u8).update(155, 32u8)
}

proof fn lemma_octal_ascii(n: nat)
    ensures
        forall|i: int| 0 <= i < octal(n).len() ==> '0' <= #[trigger] octal(n)[i] <= '7',
    decreases n,
{
    if n >= 8 {
        lemma_octal_ascii(n / 8);
        crate::text::lemma_digit_char((n % 8) as nat);
        let head = octal(n / 8);
        assert(octal(n) == head.push(digit_char((n % 8) as nat)));
        assert forall|i: int| 0 <= i < octal(n).len() implies '0' <= #[trigger] octal(n)[i] <= '7' by {
            if i < head.len() {
                assert(octal(n)[i] == head[i]);
            }
        }
    } else {
        crate::text::lemma_digit_char(n);
        assert(octal(n) == seq![digit_char(n)]);
    }
}

fn octal_bytes(v: u64, width: usize) -> (r: Vec<u8>)
    ensures
        r@ == octal_field(v as nat, width as nat),
{
    let digits = octal_string(v);
    let padded = pad_left_string(digits.as_str(), width, '0');
    proof {
        lemma_octal_ascii(v as nat);
        assert forall|i: int| 0 <= i < padded@.len() implies (#[trigger] padded@[i]) as u32 <= 127 by {
            let o = octal(v as nat);
            if o.len() < width {
                let k = width - o.len();
                if i >= k {
                    assert(padded@[i] == o[i - k]);
                }
            }
        }
    }
    ascii_of(&padded)
}

/// Writes `bytes` into `h` from `start`, at most `width` of them.
fn write_bytes(h: &mut Vec<u8>, start: usize, width: usize, bytes: &[u8])
    requires
        start + width <= old(h)@.len(),
    ensures
        final(h)@ == put(old(h)@, start as int, width as int, bytes@),
{
    let len = if width < bytes.len() {
        width
    } else {
        bytes.len()
    };
    let ghost h0 = h@;
    let hl = h.len();
    let mut i: usize = 0;
    while i < len
        invariant
            hl == h0.len(),
            i <= len,
            len <= width,
            len <= bytes@.len(),
            start + width <= h0.len(),
            h@.len() == h0.len(),
            forall|j: int| 0 <= j < h0.len() ==> #[trigger] h@[j] == (if start <= j < start + i { bytes@[j - start] } else { h0[j] }),
        decreases len - i,
    {
        h.set(start + i, bytes[i]);
        i = i + 1;
    }
    assert(h@ =~= put(h0, start as int, width as int, bytes@));
}

/// The ustar header `tar -c` writes for a regular file of `size` bytes at
/// `path` with permission bits `mode`.
pub fn build_header(path: &str, size: u64, mode: u32) -> (r: Vec<u8>)
    ensures
        r@ == header_of(path.spec_bytes(), size, mode),
{
    let mut header: Vec<u8> = Vec::new();
    let mut i: usize = 0;
    while i < 512
        invariant
            i <= 512,
            header@ == Seq::new(i as nat, |_j: int| 0u8),
        decreases 512 - i,
    {
        header.push(0);
        assert(header@ =~= Seq::new((i + 1) as nat, |_j: int| 0u8));
        i = i + 1;
    }
    write_bytes(&mut header, 0, 100, path.as_bytes());
    let f = octal_bytes(mode as u64, 7);
    write_bytes(&mut header, 100, 8, f.as_slice());
    let z7 = octal_bytes(0, 7);
    write_bytes(&mut header, 108, 8, z7.as_slice());
    write_bytes(&mut header, 116, 8, z7.as_slice());
    let s = octal_bytes(size, 11);
    write_bytes(&mut header, 124, 12, s.as_slice());
    let z11 = octal_bytes(0, 11);
    write_bytes(&mut header, 136, 12, z11.as_slice());
    let mut spaces: Vec<u8> = Vec::new();
    let mut k: usize = 0;
    while k < 8
        invariant
            k <= 8,
            spaces@ == Seq::new(k as nat, |_j: int| 32u8),
        decreases 8 - k,
    {
        spaces.push(32);
        assert(spaces@ =~= Seq::new((k + 1) as nat, |_j: int| 32u8));
        k = k + 1;
    }
    write_bytes(&mut header, 148, 8, spaces.as_slice());
    header.set(156, 48);
    let magic: Vec<u8> = vec![117u8, 115u8, 116u8, 97u8, 114u8, 0u8];
    write_bytes(&mut header, 257, 6, magic.as_slice());
    let version: Vec<u8> = vec![48u8, 48u8];
    write_bytes(&mut header, 263, 2, version.as_slice());
    let ghost draft = header@;
    assert(draft =~= header_draft(path.spec_bytes(), size, mode));
    let mut sum: u32 = 0;
    let mut j: usize = 0;
    assert(draft.take(0) =~= Seq::<u8>::empty());
    while j < 512
        invariant
            j <= 512,
            header@ == draft,
            draft.len() == 512,
            sum == byte_sum(draft.take(j as int)),
            sum <= 255 * j,
        decreases 512 - j,
    {
        assert(draft.take(j + 1).drop_last() =~= draft.take(j as int));
        sum = sum + header[j] as u32;
        j = j + 1;
    }
    assert(draft.take(512) =~= draft);
    let c = octal_bytes(sum as u64, 6);
    write_bytes(&mut header, 148, 8, c.as_slice());
    header.set(154, 0);
    header.set(155, 32);
    header
}

/// The zero bytes that fill the last block of `len` bytes of data.
pub open spec fn padding_of(len: nat) -> nat {
    ((512 - (len % 512)) % 512) as nat
}

pub fn padding_len(len: usize) -> (r: usize)
    ensures
        r == padding_of(len as nat),
{
    (512 - (len % 512)) % 512
}

/// `s` without its leading slashes.
pub open spec fn without_leading_slashes(s: Seq<char>) -> Seq<char>
    decreases s.len(),
{
    if s.len() > 0 && s[0] == '/' {
        without_leading_slashes(s.skip(1))
    } else {
        s
    }
}

/// The name a file is stored under: its path without leading slashes.
pub fn archive_name(path: &str) -> (r: String)
    ensures
        r@ == without_leading_slashes(path@),
{
    let cs = chars_of(path);
    let mut i: usize = 0;
    assert(cs@.skip(0) =~= cs@);
    while i < cs.len() && cs[i] == '/'
        invariant
            i <= cs@.len(),
            cs@ == path@,
            without_leading_slashes(path@) == without_leading_slashes(cs@.skip(i as int)),
        decreases cs@.len() - i,
    {
        assert(cs@.skip(i as int).skip(1) =~= cs@.skip(i + 1));
        i = i + 1;
    }
    let r = string_of_range(&cs, i, cs.len());
    assert(r@ =~= cs@.skip(i as int));
    r
}

// ---------------------------------------------------------------------------
// Reading
// ---------------------------------------------------------------------------

/// The index of the first zero byte of `b`, or its length.
pub open spec fn first_zero(b: Seq<u8>, i: int) -> int
    decreases b.len() - i,
{
    if i < 0 || i >= b.len() {
        b.len() as int
    } else if b[i] == 0 {
        i
    } else {
        first_zero(b, i + 1)
    }
}

/// The text of a header field: the bytes before the first NUL, as lossy
/// UTF-8, trimmed.
pub open spec fn field_text(b: Seq<u8>) -> Seq<char> {
    trimmed(utf8_lossy(b.take(first_zero(b, 0))))
}

proof fn lemma_first_zero_bounds(b: Seq<u8>, i: int)
    requires
        0 <= i <= b.len(),
    ensures
        i <= first_zero(b, i) <= b.len(),
    decreases b.len() - i,
{
    if i < b.len() && b[i] != 0 {
        lemma_first_zero_bounds(b, i + 1);
    }
}

pub fn read_string(bytes: &[u8]) -> (r: String)
    ensures
        r@ == field_text(bytes@),
{
    let mut end: usize = 0;
    while end < bytes.len() && bytes[end] != 0
        invariant
            end <= bytes@.len(),
            first_zero(bytes@, 0) == first_zero(bytes@, end as int),
        decreases bytes@.len() - end,
    {
        end = end + 1;
    }
    let mut head: Vec<u8> = Vec::new();
    let mut i: usize = 0;
    while i < end
        invariant
            i <= end,
            end <= bytes@.len(),
            head@ == bytes@.take(i as int),
        decreases end - i,
    {
        head.push(bytes[i]);
        assert(bytes@.take(i + 1) =~= bytes@.take(i as int).push(bytes@[i as int]));
        i = i + 1;
    }
    let text = lossy_text(head.as_slice());
    trim_text(text.as_str())
}

/// `u64::from_str_radix(s, 8)`: an optional `+`, then one or more octal
/// digits, with a value that fits.
pub open spec fn parse_octal(s: Seq<char>) -> Option<u64> {
    let body = unsigned_body(s);
    if body.len() > 0 && all_octal(body) && octal_value(body) <= u64::MAX {
        Some(octal_value(body) as u64)
    } else {
        None
    }
}

/// The number in a header field; 0 where it holds none.
pub open spec fn field_number(b: Seq<u8>) -> u64 {
    match parse_octal(trimmed(field_text(b))) {
        Some(v) => v,
        None => 0,
    }
}

pub(crate) fn parse_octal_exec(s: &str) -> (r: Option<u64>)
    ensures
        r == parse_octal(s@),
{
    let cs = chars_of(s);
    let start: usize = if cs.len() > 0 && cs[0] == '+' {
        1
    } else {
        0
    };
    let ghost body = unsigned_body(s@);
    assert(body =~= cs@.skip(start as int));
    if start >= cs.len() {
        return None;
    }
    let mut value: u64 = 0;
    let mut i: usize = start;
    assert(body.take(0) =~= Seq::<char>::empty());
    while i < cs.len()
        invariant
            start <= i <= cs@.len(),
            cs@ == s@,
            body == unsigned_body(s@),
            body == cs@.skip(start as int),
            all_octal(body.take(i - start)),
            value == octal_value(body.take(i - start)),
        decreases cs@.len() - i,
    {
        let c = cs[i];
        assert(body.take(i - start + 1).drop_last() =~= body.take(i - start));
        assert(body[i - start] == c);
        if !('0' <= c && c <= '7') {
            assert(!is_octal_digit(body[i - start]));
            assert(!all_octal(body));
            return None;
        }
        let d = (c as u32 - '0' as u32) as u64;
        if value > (u64::MAX - d) / 8 {
            assert(octal_value(body.take(i - start + 1)) == value * 8 + d);
            assert(value * 8 + d > u64::MAX) by (nonlinear_arith)
                requires
                    value > (u64::MAX - d) / 8,
                    d <= 7,
            ;
            proof {
                lemma_octal_value_grows(body, i - start + 1);
            }
            return None;
        }
        value = value * 8 + d;
        assert(all_octal(body.take(i - start + 1)));
        i = i + 1;
    }
    assert(body.take(i - start) =~= body);
    Some(value)
}

/// The value of a prefix of octal digits is no larger than that of the
/// whole.
proof fn lemma_octal_value_grows(s: Seq<char>, k: int)
    requires
        0 <= k <= s.len(),
    ensures
        octal_value(s.take(k)) <= octal_value(s),
    decreases s.len() - k,
{
    if k < s.len() {
        lemma_octal_value_grows(s, k + 1);
        assert(s.take(k + 1).drop_last() =~= s.take(k));
    } else {
        assert(s.take(k) =~= s);
    }
}

pub fn read_octal(bytes: &[u8]) -> (r: u64)
    ensures
        r == field_number(bytes@),
{
    let value = read_string(bytes);
    let t = trim_text(value.as_str());
    match parse_octal_exec(t.as_str()) {
        Some(v) => v,
        None => 0,
    }
}

/// One entry of an archive: a directory, or a file whose data is
/// `bytes[start..end]`.
pub struct TarEntry {
    pub path: String,
    pub is_dir: bool,
    pub start: usize,
    pub end: usize,
}

pub struct EntryView {
    pub path: Seq<char>,
    pub is_dir: bool,
    pub start: nat,
    pub end: nat,
}

pub open spec fn entry_view(e: TarEntry) -> EntryView {
    EntryView { path: e.path@, is_dir: e.is_dir, start: e.start as nat, end: e.end as nat }
}

pub open spec fn all_zero(b: Seq<u8>) -> bool {
    forall|i: int| 0 <= i < b.len() ==> #[trigger] b[i] == 0
}

/// The entries from the block at `index` on, and whether the archive ended
/// inside a file's data: each header names its entry (type `5` is a
/// directory, anything else a file whose data follows, padded to whole
/// blocks); an all-zero header or a block that is not whole ends the walk.
pub open spec fn walk_archive(b: Seq<u8>, index: nat) -> (Seq<EntryView>, bool)
    decreases b.len() + 512 - index,
{
    if index + 512 > b.len() {
        (Seq::empty(), false)
    } else {
        let h = b.subrange(index as int, index + 512 as int);
        let next = (index + 512) as nat;
        if all_zero(h) {
            (Seq::empty(), false)
        } else {
            let path = field_text(h.subrange(0, 100));
            let size = (field_number(h.subrange(124, 136)) as usize) as nat;
            if h[156] == 53 {
                let rest = walk_archive(b, next);
                (seq![EntryView { path, is_dir: true, start: next, end: next }] + rest.0, rest.1)
            } else if next + size > b.len() {
                (Seq::empty(), true)
            } else {
                let end = (next + size) as nat;
                let rest = walk_archive(b, (end + padding_of(size)) as nat);
                (seq![EntryView { path, is_dir: false, start: next, end }] + rest.0, rest.1)
            }
        }
    }
}

/// The entries of an archive, and whether it ended inside a file's data.
pub struct TarListing {
    pub entries: Vec<TarEntry>,
    pub truncated: bool,
}

pub open spec fn entries_view(v: Seq<TarEntry>) -> Seq<EntryView> {
    v.map_values(|e: TarEntry| entry_view(e))
}

fn slice_of(b: &[u8], lo: usize, hi: usize) -> (r: Vec<u8>)
    requires
        lo <= hi <= b@.len(),
    ensures
        r@ == b@.subrange(lo as int, hi as int),
{
    let mut out: Vec<u8> = Vec::new();
    let mut i = lo;
    while i < hi
        invariant
            lo <= i <= hi,
            hi <= b@.len(),
            out@ == b@.subrange(lo as int, i as int),
        decreases hi - i,
    {
        out.push(b[i]);
        assert(b@.subrange(lo as int, i + 1) =~= b@.subrange(lo as int, i as int).push(b@[i as int]));
        i = i + 1;
    }
    out
}

fn is_zero_block(h: &Vec<u8>) -> (r: bool)
    ensures
        r == all_zero(h@),
{
    let mut i: usize = 0;
    while i < h.len()
        invariant
            i <= h@.len(),
            forall|j: int| 0 <= j < i ==> #[trigger] h@[j] == 0,
        decreases h@.len() - i,
    {
        if h[i] != 0 {
            return false;
        }
        i = i + 1;
    }
    true
}

/// Walks the blocks of an archive `tar -x` reads.
pub fn list_entries(bytes: &[u8]) -> (r: TarListing)
    requires
        bytes@.len() <= isize::MAX,
    ensures
        entries_view(r.entries@) == walk_archive(bytes@, 0).0,
        r.truncated == walk_archive(bytes@, 0).1,
{
    let n = bytes.len();
    let mut index: usize = 0;
    let mut entries: Vec<TarEntry> = Vec::new();
    assert(entries_view(entries@) + walk_archive(bytes@, 0).0 =~= walk_archive(bytes@, 0).0);
    while index + 512 <= n
        invariant
            n == bytes@.len(),
            n <= isize::MAX,
            index <= n + 512,
            entries_view(entries@) + walk_archive(bytes@, index as nat).0 == walk_archive(bytes@, 0).0,
            walk_archive(bytes@, index as nat).1 == walk_archive(bytes@, 0).1,
        decreases n + 512 - index,
    {
        let ghost total = walk_archive(bytes@, 0).0;
        let h = slice_of(bytes, index, index + 512);
        let next = index + 512;
        if is_zero_block(&h) {
            assert(entries_view(entries@) =~= total);
            return TarListing { entries, truncated: false };
        }
        let name_field = slice_of(&h, 0, 100);
        let size_field = slice_of(&h, 124, 136);
        let path = read_string(name_field.as_slice());
        let size = read_octal(size_field.as_slice()) as usize;
        if h[156] == 53 {
            let ghost before = entries@;
            entries.push(TarEntry { path, is_dir: true, start: next, end: next });
            assert(entries_view(entries@) =~= entries_view(before).push(entry_view(entries@.last())));
            index = next;
        } else {
            if size > n - next {
                assert(entries_view(entries@) =~= total);
                return TarListing { entries, truncated: true };
            }
            let end = next + size;
            let ghost before = entries@;
            entries.push(TarEntry { path, is_dir: false, start: next, end });
            assert(entries_view(entries@) =~= entries_view(before).push(entry_view(entries@.last())));
            index = end + padding_len(size);
        }
    }
    assert(entries_view(entries@) =~= walk_archive(bytes@, 0).0);
    assert(!walk_archive(bytes@, index as nat).1);
    TarListing { entries, truncated: false }
}

// ---------------------------------------------------------------------------
// Reading back what was written
// ---------------------------------------------------------------------------

/// The octal digits of `n` spell `n`.
proof fn lemma_octal_value_of_octal(n: nat)
    ensures
        octal_value(octal(n)) == n,
    decreases n,
{
    if n >= 8 {
        lemma_octal_value_of_octal(n / 8);
        crate::text::lemma_digit_char((n % 8) as nat);
        let s = octal(n);
        assert(s.drop_last() == octal(n / 8));
        assert(s.last() == digit_char((n % 8) as nat));
        assert(crate::permissions::digit_value(s.last()) == n % 8);
        assert(octal_value(s) == octal_value(s.drop_last()) * 8 + crate::permissions::digit_value(s.last()));
    } else {
        crate::text::lemma_digit_char(n);
        let s = octal(n);
        assert(s == seq![digit_char(n)]);
        assert(s.drop_last() =~= Seq::<char>::empty());
        assert(crate::permissions::digit_value(s.last()) == n);
        assert(octal_value(s) == octal_value(s.drop_last()) * 8 + crate::permissions::digit_value(s.last()));
    }
}

/// Below `8^k`, a number has at most `k` octal digits.
proof fn lemma_octal_len(n: nat, k: nat)
    requires
        k >= 1,
        n < crate::permissions::pow8(k),
    ensures
        octal(n).len() <= k,
    decreases n,
{
    if n >= 8 {
        assert(k >= 2) by {
            if k == 1 {
                assert(crate::permissions::pow8(1) == 8 * crate::permissions::pow8(0));
            }
        }
        assert(crate::permissions::pow8(k) == 8 * crate::permissions::pow8((k - 1) as nat));
        lemma_octal_len(n / 8, (k - 1) as nat);
    }
}

/// Leading zeros do not change the value of octal digits.
proof fn lemma_octal_value_zeros(z: nat, s: Seq<char>)
    ensures
        octal_value(Seq::new(z, |_i: int| '0') + s) == octal_value(s),
    decreases s.len() + z,
{
    let zs = Seq::new(z, |_i: int| '0');
    if s.len() > 0 {
        lemma_octal_value_zeros(z, s.drop_last());
        assert((zs + s).drop_last() =~= zs + s.drop_last());
        assert((zs + s).last() == s.last());
    } else if z > 0 {
        lemma_octal_value_zeros((z - 1) as nat, s);
        assert((zs + s).drop_last() =~= Seq::new((z - 1) as nat, |_i: int| '0') + s);
        assert((zs + s).last() == '0');
    } else {
        assert(zs + s =~= s);
    }
}

/// The characters of a padded octal field are octal digits.
proof fn lemma_field_digits(n: nat, width: nat)
    ensures
        forall|i: int| 0 <= i < pad_left(octal(n), width, '0').len() ==> '0' <= #[trigger] pad_left(octal(n), width, '0')[i] <= '7',
        octal_value(pad_left(octal(n), width, '0')) == n,
        pad_left(octal(n), width, '0').len() >= 1,
{
    lemma_octal_ascii(n);
    lemma_octal_value_of_octal(n);
    let o = octal(n);
    let d = pad_left(o, width, '0');
    if o.len() < width {
        let k = (width - o.len()) as nat;
        lemma_octal_value_zeros(k, o);
        assert forall|i: int| 0 <= i < d.len() implies '0' <= #[trigger] d[i] <= '7' by {
            if i >= k {
                assert(d[i] == o[i - k]);
            }
        }
    }
    reveal_with_fuel(octal, 2);
}

/// A character other than NUL has no zero byte in its UTF-8 encoding.
proof fn lemma_encode_nonzero(chars: Seq<char>)
    requires
        forall|i: int| 0 <= i < chars.len() ==> chars[i] != '\0',
    ensures
        forall|i: int| 0 <= i < vstd::utf8::encode_utf8(chars).len() ==> #[trigger] vstd::utf8::encode_utf8(chars)[i] != 0,
    decreases chars.len(),
{
    if chars.len() > 0 {
        let rest = chars.drop_first();
        lemma_encode_nonzero(rest);
        let v = chars[0] as u32;
        assert(chars[0] != '\0');
        vstd::utf8::char_is_scalar(chars[0]);
        vstd::utf8::char_u32_cast(chars[0], v);
        assert(v != 0) by {
            if v == 0 {
                assert((v as char) == chars[0]);
                assert((0u32 as char) == '\0');
            }
        }
        assert(v != 0 && v <= 0x7f ==> (v & 0x7F) as u8 != 0) by (bit_vector);
        assert((0xC0u8 | ((v >> 6) & 0x1F) as u8) != 0) by (bit_vector);
        assert((0xE0u8 | ((v >> 12) & 0x0F) as u8) != 0) by (bit_vector);
        assert((0xF0u8 | ((v >> 18) & 0x7) as u8) != 0) by (bit_vector);
        assert((0x80u8 | (v & 0x3F) as u8) != 0) by (bit_vector);
        assert((0x80u8 | ((v >> 6) & 0x3F) as u8) != 0) by (bit_vector);
        assert((0x80u8 | ((v >> 12) & 0x3F) as u8) != 0) by (bit_vector);
        let e = vstd::utf8::encode_scalar(v);
        assert(forall|j: int| 0 <= j < e.len() ==> #[trigger] e[j] != 0);
        let all = vstd::utf8::encode_utf8(chars);
        assert(all == e + vstd::utf8::encode_utf8(rest));
        assert forall|i: int| 0 <= i < all.len() implies #[trigger] all[i] != 0 by {
            if i < e.len() {
                assert(all[i] == e[i]);
            } else {
                assert(all[i] == vstd::utf8::encode_utf8(rest)[i - e.len()]);
            }
        }
    }
}

/// The first zero from `i` is at `j` where there is none before it and `j`
/// is the end or a zero.
proof fn lemma_first_zero_at(b: Seq<u8>, i: int, j: int)
    requires
        0 <= i <= j <= b.len(),
        forall|k: int| i <= k < j ==> b[k] != 0,
        j == b.len() || b[j] == 0,
    ensures
        first_zero(b, i) == j,
    decreases j - i,
{
    if i < j {
        lemma_first_zero_at(b, i + 1, j);
    }
}

/// The name, size and type fields of a header as written.
proof fn lemma_header_fields(nb: Seq<u8>, size: u64, mode: u32)
    ensures
        header_of(nb, size, mode).len() == 512,
        forall|i: int| 0 <= i < 100 ==> #[trigger] header_of(nb, size, mode)[i] == (if i < nb.len() { nb[i] } else { 0u8 }),
        forall|i: int|
            124 <= i < 136 ==> #[trigger] header_of(nb, size, mode)[i] == (if i - 124 < octal_field(size as nat, 11).len() {
                octal_field(size as nat, 11)[i - 124]
            } else {
                0u8
            }),
        header_of(nb, size, mode)[156] == 48,
{
    let h0 = Seq::new(512, |_i: int| 0u8);
    let h1 = put(h0, 0, 100, nb);
    let h2 = put(h1, 100, 8, octal_field(mode as nat, 7));
    let h3 = put(h2, 108, 8, octal_field(0, 7));
    let h4 = put(h3, 116, 8, octal_field(0, 7));
    let h5 = put(h4, 124, 12, octal_field(size as nat, 11));
    let h6 = put(h5, 136, 12, octal_field(0, 11));
    let h7 = put(h6, 148, 8, Seq::new(8, |_i: int| 32u8));
    let h8 = h7.update(156, 48u8);
    let h9 = put(h8, 257, 6, seq![117u8, 115u8, 116u8, 97u8, 114u8, 0u8]);
    let d = put(h9, 263, 2, seq![48u8, 48u8]);
    assert(d == header_draft(nb, size, mode));
    let c = octal_field(byte_sum(d), 6);
    let h = put(d, 148, 8, c).update(154, 0u8).update(155, 32u8);
    assert(h == header_of(nb, size, mode));
    assert(h.len() == 512);
    assert forall|i: int| 0 <= i < 100 implies #[trigger] h[i] == (if i < nb.len() { nb[i] } else { 0u8 }) by {
        assert(h[i] == d[i]);
        assert(d[i] == h9[i]);
        assert(h9[i] == h8[i]);
        assert(h8[i] == h7[i]);
        assert(h7[i] == h6[i]);
        assert(h6[i] == h5[i]);
        assert(h5[i] == h4[i]);
        assert(h4[i] == h3[i]);
        assert(h3[i] == h2[i]);
        assert(h2[i] == h1[i]);
    }
    assert forall|i: int| 124 <= i < 136 implies #[trigger] h[i] == (if i - 124 < octal_field(size as nat, 11).len() {
        octal_field(size as nat, 11)[i - 124]
    } else {
        0u8
    }) by {
        assert(h[i] == d[i]);
        assert(d[i] == h9[i]);
        assert(h9[i] == h8[i]);
        assert(h8[i] == h7[i]);
        assert(h7[i] == h6[i]);
        assert(h6[i] == h5[i]);
        assert(h4[i] == h3[i]);
        assert(h4[i] == 0u8);
    }
    assert(h[156] == d[156]);
    assert(d[156] == h9[156]);
    assert(h9[156] == h8[156]);
}

/// A sequence whose ends are not white space is its own trimmed form.
proof fn lemma_trimmed_unchanged(s: Seq<char>)
    requires
        s.len() > 0,
        !whitespace(s[0]),
        !whitespace(s.last()),
    ensures
        trimmed(s) == s,
{
}

/// The name field of a written header reads back as the name.
proof fn lemma_name_reads_back(name: Seq<char>, size: u64, mode: u32)
    requires
        vstd::utf8::encode_utf8(name).len() <= 100,
        forall|i: int| 0 <= i < name.len() ==> name[i] != '\0',
        trimmed(name) == name,
    ensures
        field_text(header_of(vstd::utf8::encode_utf8(name), size, mode).subrange(0, 100)) == name,
{
    let nb = vstd::utf8::encode_utf8(name);
    let h = header_of(nb, size, mode);
    lemma_header_fields(nb, size, mode);
    lemma_encode_nonzero(name);
    let f = h.subrange(0, 100);
    assert forall|k: int| 0 <= k < nb.len() implies f[k] != 0 by {
        assert(f[k] == h[k]);
        assert(nb[k] != 0);
    }
    if nb.len() < 100 {
        assert(f[nb.len() as int] == h[nb.len() as int]);
    }
    lemma_first_zero_at(f, 0, nb.len() as int);
    assert(f.take(nb.len() as int) =~= nb) by {
        assert forall|k: int| 0 <= k < nb.len() implies f.take(nb.len() as int)[k] == nb[k] by {
            assert(f[k] == h[k]);
        }
    }
    vstd::utf8::encode_utf8_valid_utf8(name);
    vstd::utf8::encode_utf8_decode_utf8(name);
}

/// The size field of a written header reads back as the size, for a size
/// of at most twelve octal digits.
proof fn lemma_size_reads_back(nb: Seq<u8>, size: u64, mode: u32)
    requires
        size < 0o1000000000000,
    ensures
        field_number(header_of(nb, size, mode).subrange(124, 136)) == size,
{
    let h = header_of(nb, size, mode);
    lemma_header_fields(nb, size, mode);
    let digits = pad_left(octal(size as nat), 11, '0');
    lemma_field_digits(size as nat, 11);
    assert(crate::permissions::pow8(12) == 0o1000000000000) by {
        reveal_with_fuel(crate::permissions::pow8, 13);
    }
    lemma_octal_len(size as nat, 12);
    let dl = digits.len();
    assert(11 <= dl <= 12);
    let bytes = octal_field(size as nat, 11);
    assert(bytes == ascii_bytes(digits));
    assert(bytes.len() == dl);
    let f = h.subrange(124, 136);
    assert forall|k: int| 0 <= k < dl implies f[k] == bytes[k] && f[k] != 0 by {
        assert(f[k] == h[124 + k]);
        assert('0' <= digits[k] <= '7');
    }
    if dl < 12 {
        assert(f[dl as int] == h[124 + dl as int]);
    }
    lemma_first_zero_at(f, 0, dl as int);
    assert(vstd::utf8::is_ascii_chars(digits)) by {
        assert forall|k: int| 0 <= k < digits.len() implies '\0' <= #[trigger] digits[k] <= '\u{7f}' by {
            assert('0' <= digits[k] <= '7');
        }
    }
    vstd::utf8::is_ascii_chars_encode_utf8(digits);
    assert(f.take(dl as int) =~= vstd::utf8::encode_utf8(digits)) by {
        assert forall|k: int| 0 <= k < dl implies f.take(dl as int)[k] == vstd::utf8::encode_utf8(digits)[k] by {
            assert(f[k] == bytes[k]);
            assert(digits[k] as u8 == vstd::utf8::encode_utf8(digits)[k]);
        }
    }
    vstd::utf8::encode_utf8_valid_utf8(digits);
    vstd::utf8::encode_utf8_decode_utf8(digits);
    assert(field_text(f) == trimmed(digits));
    assert('0' <= digits[0] <= '7');
    assert('0' <= digits.last() <= '7');
    lemma_trimmed_unchanged(digits);
    assert(unsigned_body(digits) == digits);
    assert(all_octal(digits)) by {
        assert forall|k: int| 0 <= k < digits.len() implies #[trigger] is_octal_digit(digits[k]) by {
            assert('0' <= digits[k] <= '7');
        }
    }
}

/// What `tar -x` reads from an archive that `tar -c` wrote for one regular
/// file (its header, its data padded to whole blocks, and the two zero
/// blocks that end the archive) is that file again: the same name, and
/// data at the place it was written, with nothing else and nothing
/// truncated. This holds for a name of at most 100 bytes of UTF-8 with no
/// NUL and no white space at either end, and a size of at most twelve
/// octal digits.
pub proof fn lemma_archive_reads_back(name: Seq<char>, data: Seq<u8>, mode: u32)
    requires
        vstd::utf8::encode_utf8(name).len() <= 100,
        forall|i: int| 0 <= i < name.len() ==> name[i] != '\0',
        trimmed(name) == name,
        data.len() < 0o1000000000000,
        data.len() <= usize::MAX,
    ensures
        ({
            let h = header_of(vstd::utf8::encode_utf8(name), data.len() as u64, mode);
            let archive = h + data + Seq::new(padding_of(data.len()), |_i: int| 0u8) + Seq::new(1024, |_i: int| 0u8);
            walk_archive(archive, 0) == (
                seq![EntryView { path: name, is_dir: false, start: 512, end: 512 + data.len() }],
                false,
            )
        }),
{
    let nb = vstd::utf8::encode_utf8(name);
    let size = data.len() as u64;
    let h = header_of(nb, size, mode);
    let pad = padding_of(data.len());
    let archive = h + data + Seq::new(pad, |_i: int| 0u8) + Seq::new(1024, |_i: int| 0u8);
    lemma_header_fields(nb, size, mode);
    lemma_name_reads_back(name, size, mode);
    lemma_size_reads_back(nb, size, mode);
    assert(archive.subrange(0, 512) =~= h);
    assert(!all_zero(h)) by {
        assert(h[156] != 0);
    }
    let end = 512 + data.len();
    let next = end + pad;
    assert(next + 512 <= archive.len());
    assert(all_zero(archive.subrange(next as int, next + 512 as int))) by {
        assert forall|k: int| 0 <= k < 512 implies #[trigger] archive.subrange(next as int, next + 512 as int)[k] == 0 by {
            assert(archive.subrange(next as int, next + 512 as int)[k] == archive[next + k]);
        }
    }
    assert(walk_archive(archive, next as nat) == (Seq::<EntryView>::empty(), false));
    assert(h[156] != 53);
    assert(walk_archive(archive, 0).0 =~= seq![EntryView { path: name, is_dir: false, start: 512, end: end as nat }]);
}

} // verus!
