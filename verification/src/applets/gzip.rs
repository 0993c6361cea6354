//! `gzip`: the gzip container around a DEFLATE stream (a fixed ten-byte
//! header, then the stream, then the CRC-32 and the length of the data),
//! the CRC-32 itself, and the options and output name of the applet. The
//! DEFLATE coding is `miniz_oxide`'s.

use vstd::prelude::*;
use crate::applets::cat::strings_view;
use crate::text::{chars_end_with, chars_of, concat_str, str_eq, string_of_range};

verus! {

broadcast use vstd::std_specs::vec::group_vec_axioms;

#[verifier::external_type_specification]
#[verifier::external_body]
pub struct ExDecompressError(miniz_oxide::inflate::DecompressError);

/// The DEFLATE stream that `miniz_oxide` makes of `input` at `level`.
pub uninterp spec fn deflated(input: Seq<u8>, level: u8) -> Seq<u8>;

/// What `miniz_oxide` decodes from a DEFLATE stream: the data, or `None`
/// where the stream is not valid.
pub uninterp spec fn inflate_outcome(data: Seq<u8>) -> Option<Seq<u8>>;

/// `miniz_oxide::deflate::compress_to_vec`. Trusted: the result is the
/// stream named [`deflated`], and decoding it gives `input` back, as the
/// crate's documented round trip shows.
#[verifier::external_body]
fn deflate_bytes(input: &[u8], level: u8) -> (r: Vec<u8>)
    requires
        level <= 10,
    ensures
        r@ == deflated(input@, level),
        inflate_outcome(r@) == Some(input@),
{
    miniz_oxide::deflate::compress_to_vec(input, level)
}

/// `miniz_oxide::inflate::decompress_to_vec`. Trusted: it succeeds exactly
/// where [`inflate_outcome`] names data, and then returns that data.
#[verifier::external_body]
fn inflate_bytes(data: &[u8]) -> (r: Result<Vec<u8>, miniz_oxide::inflate::DecompressError>)
    ensures
        match inflate_outcome(data@) {
            Some(d) => r matches Ok(v) && v@ == d,
            None => r is Err,
        },
{
    miniz_oxide::inflate::decompress_to_vec(data)
}

/// The `Debug` text of a decoding error. Nothing is stated of it: it is
/// `miniz_oxide`'s own formatting of its status and partial output.
#[verifier::external_body]
fn decompress_error_text(e: &miniz_oxide::inflate::DecompressError) -> String {
    format!("{e:?}")
}

/// One step of the bitwise CRC-32 (reflected polynomial `0xEDB88320`).
pub open spec fn crc_shift(c: u32) -> u32 {
    if c & 1 == 1 {
        (c >> 1) ^ 0xedb8_8320u32
    } else {
        c >> 1
    }
}

pub open spec fn crc_rounds(c: u32, n: nat) -> u32
    decreases n,
{
    if n == 0 {
        c
    } else {
        crc_rounds(crc_shift(c), (n - 1) as nat)
    }
}

/// The CRC register after `data`, starting from all ones.
pub open spec fn crc_register(data: Seq<u8>) -> u32
    decreases data.len(),
{
    if data.len() == 0 {
        0xffff_ffffu32
    } else {
        crc_rounds(crc_register(data.drop_last()) ^ (data.last() as u32), 8)
    }
}

/// The CRC-32 of `data` (as in gzip, zlib and PNG).
pub open spec fn crc32_of(data: Seq<u8>) -> u32 {
    !crc_register(data)
}

pub fn crc32(data: &[u8]) -> (r: u32)
    ensures
        r == crc32_of(data@),
{
    let mut crc: u32 = 0xffff_ffff;
    let mut i: usize = 0;
    while i < data.len()
        invariant
            i <= data@.len(),
            crc == crc_register(data@.subrange(0, i as int)),
        decreases data@.len() - i,
    {
        assert(data@.subrange(0, i + 1).drop_last() =~= data@.subrange(0, i as int));
        crc = crc ^ (data[i] as u32);
        let mut k: u32 = 0;
        while k < 8
            invariant
                k <= 8,
                crc_rounds(crc_register(data@.subrange(0, i as int)) ^ (data@[i as int] as u32), 8) == crc_rounds(
                    crc,
                    (8 - k) as nat,
                ),
            decreases 8 - k,
        {
            crc = if crc & 1 == 1 {
                (crc >> 1) ^ 0xedb8_8320u32
            } else {
                crc >> 1
            };
            k = k + 1;
        }
        i = i + 1;
    }
    assert(data@.subrange(0, data@.len() as int) =~= data@);
    !crc
}

/// The four bytes of `v`, least significant first.
pub open spec fn le32(v: u32) -> Seq<u8> {
    seq![(v & 0xff) as u8, ((v >> 8) & 0xff) as u8, ((v >> 16) & 0xff) as u8, ((v >> 24) & 0xff) as u8]
}

/// The number whose bytes, least significant first, are `b[at..at + 4]`.
pub open spec fn le32_at(b: Seq<u8>, at: int) -> u32 {
    (b[at] as u32) | ((b[at + 1] as u32) << 8) | ((b[at + 2] as u32) << 16) | ((b[at + 3] as u32) << 24)
}

/// The ten header bytes `gzip` writes: magic, method 8, no flags, no time,
/// no extra flags, unknown system.
pub open spec fn gzip_header() -> Seq<u8> {
    seq![0x1fu8, 0x8bu8, 0x08u8, 0u8, 0u8, 0u8, 0u8, 0u8, 0u8, 0xffu8]
}

/// The gzip file for `input`.
pub open spec fn gzip_bytes(input: Seq<u8>) -> Seq<u8> {
    gzip_header() + deflated(input, 6) + le32(crc32_of(input)) + le32(input.len() as u32)
}

/// Why a gzip file was refused.
pub enum GunzipFailure {
    InvalidStream,
    Decompress,
    CrcMismatch,
    SizeMismatch,
}

/// The data a gzip file holds after the stream decoded to `d`: the CRC-32
/// and the length (modulo 2^32) stored in its last eight bytes must agree.
pub open spec fn trailer_outcome(b: Seq<u8>, d: Seq<u8>) -> Result<Seq<u8>, GunzipFailure> {
    let end = b.len() - 8;
    if crc32_of(d) != le32_at(b, end) {
        Err(GunzipFailure::CrcMismatch)
    } else if (d.len() as u32) != le32_at(b, end + 4) {
        Err(GunzipFailure::SizeMismatch)
    } else {
        Ok(d)
    }
}

/// What a gzip file decodes to: at least 18 bytes beginning with the magic
/// and method, a stream from byte 10 to eight bytes before the end, and a
/// trailer that agrees with the decoded data.
pub open spec fn gunzip_outcome(b: Seq<u8>) -> Result<Seq<u8>, GunzipFailure> {
    if b.len() < 18 || !(b[0] == 0x1f && b[1] == 0x8b && b[2] == 0x08) {
        Err(GunzipFailure::InvalidStream)
    } else {
        match inflate_outcome(b.subrange(10, b.len() - 8)) {
            None => Err(GunzipFailure::Decompress),
            Some(d) => trailer_outcome(b, d),
        }
    }
}

#[derive(Debug)]
pub enum GzipError {
    InvalidStream,
    Decompress(miniz_oxide::inflate::DecompressError),
    CrcMismatch,
    SizeMismatch,
}

pub open spec fn failure_of(e: GzipError) -> GunzipFailure {
    match e {
        GzipError::InvalidStream => GunzipFailure::InvalidStream,
        GzipError::Decompress(_) => GunzipFailure::Decompress,
        GzipError::CrcMismatch => GunzipFailure::CrcMismatch,
        GzipError::SizeMismatch => GunzipFailure::SizeMismatch,
    }
}

impl GzipError {
    /// The message for this error; for a stream that does not decode, the
    /// prefix is followed by `miniz_oxide`'s description.
    pub fn message(&self) -> (r: String)
        ensures
            match failure_of(*self) {
                GunzipFailure::InvalidStream => r@ == "gzip: invalid gzip stream"@,
                GunzipFailure::Decompress => r@.len() >= "gzip: failed to decompress stream: "@.len() && r@.subrange(
                    0,
                    "gzip: failed to decompress stream: "@.len() as int,
                ) == "gzip: failed to decompress stream: "@,
                GunzipFailure::CrcMismatch => r@ == "gzip: crc mismatch"@,
                GunzipFailure::SizeMismatch => r@ == "gzip: size mismatch"@,
            },
    {
        proof {
            reveal_strlit("");
        }
        match self {
            GzipError::InvalidStream => concat_str("gzip: invalid gzip stream", ""),
            GzipError::Decompress(e) => {
                let text = decompress_error_text(e);
                let r = concat_str("gzip: failed to decompress stream: ", text.as_str());
                assert(r@.subrange(0, "gzip: failed to decompress stream: "@.len() as int) =~= "gzip: failed to decompress stream: "@);
                r
            },
            GzipError::CrcMismatch => concat_str("gzip: crc mismatch", ""),
            GzipError::SizeMismatch => concat_str("gzip: size mismatch", ""),
        }
    }
}

fn push_le32(out: &mut Vec<u8>, v: u32)
    ensures
        final(out)@ == old(out)@ + le32(v),
{
    out.push((v & 0xff) as u8);
    out.push(((v >> 8) & 0xff) as u8);
    out.push(((v >> 16) & 0xff) as u8);
    out.push(((v >> 24) & 0xff) as u8);
    assert(final(out)@ =~= old(out)@ + le32(v));
}

fn read_le32(b: &[u8], at: usize) -> (r: u32)
    requires
        at + 4 <= b@.len(),
    ensures
        r == le32_at(b@, at as int),
{
    (b[at] as u32) | ((b[at + 1] as u32) << 8) | ((b[at + 2] as u32) << 16) | ((b[at + 3] as u32) << 24)
}

proof fn lemma_le32_roundtrip(v: u32)
    ensures
        le32_at(le32(v), 0) == v,
{
    let b0 = (v & 0xff) as u8;
    let b1 = ((v >> 8) & 0xff) as u8;
    let b2 = ((v >> 16) & 0xff) as u8;
    let b3 = ((v >> 24) & 0xff) as u8;
    assert((b0 as u32) | ((b1 as u32) << 8) | ((b2 as u32) << 16) | ((b3 as u32) << 24) == v) by (bit_vector)
        requires
            b0 == (v & 0xff) as u8,
            b1 == ((v >> 8) & 0xff) as u8,
            b2 == ((v >> 16) & 0xff) as u8,
            b3 == ((v >> 24) & 0xff) as u8,
    ;
}

/// Reading back what [`gzip_bytes`] wrote gives the data, wherever the
/// stream decodes to it.
proof fn lemma_gunzip_of_gzip(input: Seq<u8>)
    requires
        inflate_outcome(deflated(input, 6)) == Some(input),
    ensures
        gunzip_outcome(gzip_bytes(input)) == Ok::<Seq<u8>, GunzipFailure>(input),
{
    let b = gzip_bytes(input);
    let d = deflated(input, 6);
    let end = b.len() - 8;
    assert(b.subrange(10, end) =~= d);
    let crc = crc32_of(input);
    let len = input.len() as u32;
    assert(b.subrange(end, end + 4) =~= le32(crc));
    assert(b.subrange(end + 4, end + 8) =~= le32(len));
    lemma_le32_roundtrip(crc);
    lemma_le32_roundtrip(len);
    assert(le32_at(b, end) == le32_at(le32(crc), 0));
    assert(le32_at(b, end + 4) == le32_at(le32(len), 0));
}

/// The gzip file for `input`; reading it back gives `input`.
pub fn encode_gzip(input: &[u8]) -> (r: Vec<u8>)
    ensures
        r@ == gzip_bytes(input@),
        gunzip_outcome(r@) == Ok::<Seq<u8>, GunzipFailure>(input@),
{
    let compressed = deflate_bytes(input, 6);
    let mut output: Vec<u8> = Vec::new();
    output.push(0x1f);
    output.push(0x8b);
    output.push(0x08);
    output.push(0);
    output.push(0);
    output.push(0);
    output.push(0);
    output.push(0);
    output.push(0);
    output.push(0xff);
    assert(output@ =~= gzip_header());
    let mut i: usize = 0;
    while i < compressed.len()
        invariant
            i <= compressed@.len(),
            output@ == gzip_header() + compressed@.subrange(0, i as int),
        decreases compressed@.len() - i,
    {
        output.push(compressed[i]);
        assert(compressed@.subrange(0, i + 1) =~= compressed@.subrange(0, i as int).push(compressed@[i as int]));
        i = i + 1;
    }
    assert(compressed@.subrange(0, compressed@.len() as int) =~= compressed@);
    let crc = crc32(input);
    push_le32(&mut output, crc);
    push_le32(&mut output, input.len() as u32);
    proof {
        lemma_gunzip_of_gzip(input@);
    }
    output
}

/// The data of a gzip file whose stream decoded to `decompressed`, after
/// its trailer is checked.
pub fn check_trailer(input: &[u8], decompressed: Vec<u8>) -> (r: Result<Vec<u8>, GzipError>)
    requires
        input@.len() >= 8,
    ensures
        match trailer_outcome(input@, decompressed@) {
            Ok(d) => r matches Ok(v) && v@ == d,
            Err(f) => r matches Err(e) && failure_of(e) == f,
        },
{
    let end = input.len() - 8;
    let expected_crc = read_le32(input, end);
    let expected_size = read_le32(input, end + 4);
    if crc32(decompressed.as_slice()) != expected_crc {
        return Err(GzipError::CrcMismatch);
    }
    if decompressed.len() as u32 != expected_size {
        return Err(GzipError::SizeMismatch);
    }
    Ok(decompressed)
}

/// The data a gzip file holds.
pub fn decode_gzip(input: &[u8]) -> (r: Result<Vec<u8>, GzipError>)
    ensures
        match gunzip_outcome(input@) {
            Ok(d) => r matches Ok(v) && v@ == d,
            Err(f) => r matches Err(e) && failure_of(e) == f,
        },
{
    if input.len() < 18 || !(input[0] == 0x1f && input[1] == 0x8b && input[2] == 0x08) {
        return Err(GzipError::InvalidStream);
    }
    let end = input.len() - 8;
    let mut compressed: Vec<u8> = Vec::new();
    let mut i: usize = 10;
    while i < end
        invariant
            10 <= i <= end,
            end == input@.len() - 8,
            compressed@ == input@.subrange(10, i as int),
        decreases end - i,
    {
        compressed.push(input[i]);
        assert(input@.subrange(10, i + 1) =~= input@.subrange(10, i as int).push(input@[i as int]));
        i = i + 1;
    }
    match inflate_bytes(compressed.as_slice()) {
        Ok(d) => check_trailer(input, d),
        Err(e) => Err(GzipError::Decompress(e)),
    }
}

#[derive(Debug, Clone)]
pub struct GzipOptions {
    pub to_stdout: bool,
    pub decompress: bool,
    pub files: Vec<String>,
}

/// How `gzip` reads its arguments from index `k` on: `-c` and `-d` are its
/// switches, any other argument beginning with `-` is refused (the error is
/// that argument), the rest are files.
pub open spec fn gzip_args(args: Seq<Seq<char>>, k: int, f: (bool, bool), files: Seq<Seq<char>>) -> Result<((bool, bool), Seq<Seq<char>>), Seq<char>>
    decreases args.len() - k,
{
    if k < 0 || k >= args.len() {
        Ok((f, files))
    } else {
        let a = args[k];
        if a == "-c"@ {
            gzip_args(args, k + 1, (true, f.1), files)
        } else if a == "-d"@ {
            gzip_args(args, k + 1, (f.0, true), files)
        } else if a.len() > 0 && a[0] == '-' {
            Err(a)
        } else {
            gzip_args(args, k + 1, f, files.push(a))
        }
    }
}

impl GzipOptions {
    /// Reads `gzip`'s arguments; the error is the option it does not know.
    pub fn parse(args: &[String]) -> (r: Result<GzipOptions, String>)
        ensures
            match gzip_args(strings_view(args@), 0, (false, false), Seq::empty()) {
                Ok((f, files)) => r matches Ok(o) && (o.to_stdout, o.decompress) == f && strings_view(o.files@) == files,
                Err(a) => r matches Err(s) && s@ == a,
            },
    {
        let ghost all = strings_view(args@);
        let mut f = (false, false);
        let mut files: Vec<String> = Vec::new();
        let mut k: usize = 0;
        assert(strings_view(files@) =~= Seq::<Seq<char>>::empty());
        while k < args.len()
            invariant
                k <= args@.len(),
                all == strings_view(args@),
                gzip_args(all, 0, (false, false), Seq::empty()) == gzip_args(all, k as int, f, strings_view(files@)),
            decreases args@.len() - k,
        {
            let a = args[k].as_str();
            assert(all[k as int] == a@);
            if str_eq(a, "-c") {
                f = (true, f.1);
            } else if str_eq(a, "-d") {
                f = (f.0, true);
            } else {
                let cs = chars_of(a);
                if cs.len() > 0 && cs[0] == '-' {
                    return Err(args[k].clone());
                }
                let ghost before = files@;
                files.push(args[k].clone());
                assert(strings_view(files@) =~= strings_view(before).push(a@));
            }
            k = k + 1;
        }
        Ok(GzipOptions { to_stdout: f.0, decompress: f.1, files })
    }
}

/// The message for an option `gzip` does not know.
pub fn unsupported_option_message(option: &str) -> (r: String)
    ensures
        r@ == "gzip: unsupported option -- '"@ + option@ + "'"@,
{
    let mut out = concat_str("gzip: unsupported option -- '", option);
    out.append("'");
    out
}

/// `s` without every trailing `.gz`.
pub open spec fn without_gz(s: Seq<char>) -> Seq<char>
    decreases s.len(),
{
    if s.len() >= 3 && s.subrange(s.len() - 3, s.len() as int) == ".gz"@ {
        without_gz(s.subrange(0, s.len() - 3))
    } else {
        s
    }
}

/// The file `gzip` writes for the input `name`: `name.gz`; when
/// decompressing, `name` without its `.gz` suffixes, or `name.out` where it
/// has none.
pub open spec fn output_name(name: Seq<char>, decompress: bool) -> Seq<char> {
    if decompress && name.len() >= 3 && name.subrange(name.len() - 3, name.len() as int) == ".gz"@ {
        without_gz(name)
    } else if decompress {
        name + ".out"@
    } else {
        name + ".gz"@
    }
}

pub fn output_path(name: &str, decompress: bool) -> (r: String)
    ensures
        r@ == output_name(name@, decompress),
{
    let cs = chars_of(name);
    let suffix = chars_of(".gz");
    proof {
        reveal_strlit(".gz");
    }
    if decompress && chars_end_with(&cs, &suffix) {
        let mut end = cs.len();
        assert(cs@.subrange(0, end as int) =~= name@);
        while end >= 3 && cs[end - 3] == '.' && cs[end - 2] == 'g' && cs[end - 1] == 'z'
            invariant
                end <= cs@.len(),
                cs@ == name@,
                without_gz(name@) == without_gz(cs@.subrange(0, end as int)),
            decreases end,
        {
            let ghost s = cs@.subrange(0, end as int);
            proof {
                reveal_strlit(".gz");
            }
            assert(s.subrange(s.len() - 3, s.len() as int) =~= ".gz"@);
            assert(s.subrange(0, s.len() - 3) =~= cs@.subrange(0, end - 3));
            end = end - 3;
        }
        proof {
            let s = cs@.subrange(0, end as int);
            if s.len() >= 3 && s.subrange(s.len() - 3, s.len() as int) == ".gz"@ {
                assert(s.subrange(s.len() - 3, s.len() as int)[0] == s[end - 3]);
                assert(s.subrange(s.len() - 3, s.len() as int)[1] == s[end - 2]);
                assert(s.subrange(s.len() - 3, s.len() as int)[2] == s[end - 1]);
            }
            assert(name@.subrange(name@.len() - 3, name@.len() as int) =~= ".gz"@);
        }
        string_of_range(&cs, 0, end)
    } else if decompress {
        proof {
            if name@.len() >= 3 && name@.subrange(name@.len() - 3, name@.len() as int) == ".gz"@ {
                assert(false);
            }
        }
        concat_str(name, ".out")
    } else {
        concat_str(name, ".gz")
    }
}

} // verus!
