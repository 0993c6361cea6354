//! `ls`: its options, which names a directory listing shows and in what
//! order, the `total` line, the permission string, the modification date
//! and the line of the long format.

use vstd::prelude::*;
use crate::applets::cat::strings_view;
use crate::applets::lines::{sort_lines, sorted_by_chars, views};
use crate::text::{
    chars_of, concat_str, decimal, decimal_string, pad_left, pad_left_string, push_char, signed_decimal,
    signed_decimal_string, str_eq,
};

verus! {

broadcast use vstd::std_specs::vec::group_vec_axioms;

#[derive(Debug, Clone)]
pub struct LsOptions {
    pub show_all: bool,
    pub long_format: bool,
    pub recursive: bool,
    pub paths: Vec<String>,
}

/// The switches `(all, long, recursive)` after the option letter `c`.
pub open spec fn ls_letter(f: (bool, bool, bool), c: char) -> Option<(bool, bool, bool)> {
    if c == 'a' {
        Some((true, f.1, f.2))
    } else if c == 'l' {
        Some((f.0, true, f.2))
    } else if c == 'R' {
        Some((f.0, f.1, true))
    } else {
        None
    }
}

pub open spec fn ls_cluster(a: Seq<char>, i: int, f: (bool, bool, bool)) -> Result<(bool, bool, bool), char>
    decreases a.len() - i,
{
    if i < 0 || i >= a.len() {
        Ok(f)
    } else {
        match ls_letter(f, a[i]) {
            Some(g) => ls_cluster(a, i + 1, g),
            None => Err(a[i]),
        }
    }
}

/// How `ls` reads its arguments from index `k` on: `--all`,
/// `--format=long` and `--recursive` stand for their letters, `--` makes
/// the rest paths, a cluster of letters sets switches, anything else is a
/// path; the error is the first letter that is no option.
pub open spec fn ls_args(args: Seq<Seq<char>>, k: int, f: (bool, bool, bool), paths: Seq<Seq<char>>) -> Result<((bool, bool, bool), Seq<Seq<char>>), char>
    decreases args.len() - k,
{
    if k < 0 || k >= args.len() {
        Ok((f, paths))
    } else {
        let a = args[k];
        if a == "--all"@ {
            ls_args(args, k + 1, (true, f.1, f.2), paths)
        } else if a == "--format=long"@ {
            ls_args(args, k + 1, (f.0, true, f.2), paths)
        } else if a == "--recursive"@ {
            ls_args(args, k + 1, (f.0, f.1, true), paths)
        } else if a == "--"@ {
            Ok((f, paths + args.subrange(k + 1, args.len() as int)))
        } else if a.len() > 1 && a[0] == '-' {
            match ls_cluster(a, 1, f) {
                Ok(g) => ls_args(args, k + 1, g, paths),
                Err(c) => Err(c),
            }
        } else {
            ls_args(args, k + 1, f, paths.push(a))
        }
    }
}

fn apply_letter(f: (bool, bool, bool), c: char) -> (r: Option<(bool, bool, bool)>)
    ensures
        r == ls_letter(f, c),
{
    if c == 'a' {
        Some((true, f.1, f.2))
    } else if c == 'l' {
        Some((f.0, true, f.2))
    } else if c == 'R' {
        Some((f.0, f.1, true))
    } else {
        None
    }
}

fn apply_cluster(cs: &Vec<char>, f: (bool, bool, bool)) -> (r: Result<(bool, bool, bool), char>)
    requires
        cs@.len() >= 1,
    ensures
        r == ls_cluster(cs@, 1, f),
{
    let mut flags = f;
    let mut i: usize = 1;
    while i < cs.len()
        invariant
            1 <= i <= cs@.len(),
            ls_cluster(cs@, 1, f) == ls_cluster(cs@, i as int, flags),
        decreases cs@.len() - i,
    {
        match apply_letter(flags, cs[i]) {
            Some(g) => {
                flags = g;
            },
            None => {
                return Err(cs[i]);
            },
        }
        i = i + 1;
    }
    Ok(flags)
}

impl LsOptions {
    /// Reads `ls`'s arguments; an invalid option letter is the error.
    pub fn parse(args: &[String]) -> (r: Result<LsOptions, char>)
        ensures
            match ls_args(strings_view(args@), 0, (false, false, false), Seq::empty()) {
                Ok((f, paths)) => r matches Ok(o) && (o.show_all, o.long_format, o.recursive) == f
                    && strings_view(o.paths@) == paths,
                Err(c) => r == Err::<LsOptions, char>(c),
            },
    {
        let ghost all = strings_view(args@);
        let mut f = (false, false, false);
        let mut paths: Vec<String> = Vec::new();
        let mut k: usize = 0;
        assert(strings_view(paths@) =~= Seq::<Seq<char>>::empty());
        while k < args.len()
            invariant
                k <= args@.len(),
                all == strings_view(args@),
                ls_args(all, 0, (false, false, false), Seq::empty()) == ls_args(all, k as int, f, strings_view(paths@)),
            decreases args@.len() - k,
        {
            let a = args[k].as_str();
            assert(all[k as int] == a@);
            if str_eq(a, "--all") {
                f = (true, f.1, f.2);
            } else if str_eq(a, "--format=long") {
                f = (f.0, true, f.2);
            } else if str_eq(a, "--recursive") {
                f = (f.0, f.1, true);
            } else if str_eq(a, "--") {
                let ghost base = strings_view(paths@);
                let mut j = k + 1;
                while j < args.len()
                    invariant
                        k < j <= args@.len(),
                        all == strings_view(args@),
                        strings_view(paths@) == base + all.subrange(k + 1, j as int),
                    decreases args@.len() - j,
                {
                    let ghost before = paths@;
                    paths.push(args[j].clone());
                    assert(strings_view(paths@) =~= strings_view(before).push(all[j as int]));
                    assert(all.subrange(k + 1, j + 1) =~= all.subrange(k + 1, j as int).push(all[j as int]));
                    j = j + 1;
                }
                return Ok(LsOptions { show_all: f.0, long_format: f.1, recursive: f.2, paths });
            } else {
                let cs = chars_of(a);
                if cs.len() > 1 && cs[0] == '-' {
                    match apply_cluster(&cs, f) {
                        Ok(g) => {
                            f = g;
                        },
                        Err(c) => {
                            return Err(c);
                        },
                    }
                } else {
                    let ghost before = paths@;
                    paths.push(args[k].clone());
                    assert(strings_view(paths@) =~= strings_view(before).push(a@));
                }
            }
            k = k + 1;
        }
        Ok(LsOptions { show_all: f.0, long_format: f.1, recursive: f.2, paths })
    }

    /// The paths to list: those given, or `.` where none is.
    pub fn listed_paths(&self) -> (r: Vec<String>)
        ensures
            strings_view(r@) == (if self.paths@.len() == 0 {
                seq!["."@]
            } else {
                strings_view(self.paths@)
            }),
    {
        let mut v: Vec<String> = Vec::new();
        if self.paths.len() == 0 {
            proof {
                reveal_strlit("");
            }
            v.push(concat_str(".", ""));
            assert(strings_view(v@) =~= seq!["."@]);
        } else {
            let mut j: usize = 0;
            while j < self.paths.len()
                invariant
                    j <= self.paths@.len(),
                    strings_view(v@) == strings_view(self.paths@).subrange(0, j as int),
                decreases self.paths@.len() - j,
            {
                let ghost before = v@;
                v.push(self.paths[j].clone());
                assert(strings_view(v@) =~= strings_view(before).push(self.paths@[j as int]@));
                assert(strings_view(self.paths@).subrange(0, j + 1) =~= strings_view(self.paths@).subrange(0, j as int).push(
                    self.paths@[j as int]@,
                ));
                j = j + 1;
            }
            assert(strings_view(self.paths@).subrange(0, self.paths@.len() as int) =~= strings_view(self.paths@));
        }
        v
    }
}

/// Whether a name is shown: every name with `-a`, else those that do not
/// begin with a dot.
pub open spec fn is_shown(name: Seq<char>, show_all: bool) -> bool {
    show_all || !(name.len() > 0 && name[0] == '.')
}

/// The names that are shown, in the order they came.
pub open spec fn shown_names(names: Seq<Seq<char>>, show_all: bool) -> Seq<Seq<char>>
    decreases names.len(),
{
    if names.len() == 0 {
        names
    } else {
        let rest = shown_names(names.drop_last(), show_all);
        if is_shown(names.last(), show_all) {
            rest.push(names.last())
        } else {
            rest
        }
    }
}

/// The names a listing shows, in character order (which is the byte order
/// of their UTF-8 text), with `.` and `..` first under `-a`.
pub fn visible_names(names: &[String], show_all: bool) -> (r: Vec<String>)
    ensures
        ({
            let dots: Seq<Seq<char>> = if show_all {
                seq!["."@, ".."@]
            } else {
                Seq::empty()
            };
            let body = views(r@).skip(dots.len() as int);
            &&& views(r@).len() == dots.len() + body.len()
            &&& views(r@).take(dots.len() as int) == dots
            &&& sorted_by_chars(body)
            &&& body.to_multiset() == shown_names(strings_view(names@), show_all).to_multiset()
        }),
{
    let ghost all = strings_view(names@);
    let mut kept: Vec<String> = Vec::new();
    let mut i: usize = 0;
    assert(all.subrange(0, 0) =~= Seq::<Seq<char>>::empty());
    while i < names.len()
        invariant
            i <= names@.len(),
            all == strings_view(names@),
            views(kept@) == shown_names(all.subrange(0, i as int), show_all),
        decreases names@.len() - i,
    {
        let cs = chars_of(names[i].as_str());
        let ghost prefix = all.subrange(0, i + 1);
        assert(prefix.drop_last() =~= all.subrange(0, i as int));
        assert(prefix.last() == names@[i as int]@);
        if show_all || !(cs.len() > 0 && cs[0] == '.') {
            let ghost before = kept@;
            kept.push(names[i].clone());
            assert(views(kept@) =~= views(before).push(names@[i as int]@));
        }
        i = i + 1;
    }
    assert(all.subrange(0, names@.len() as int) =~= all);
    let sorted = sort_lines(kept);
    let mut out: Vec<String> = Vec::new();
    proof {
        reveal_strlit("");
    }
    if show_all {
        out.push(concat_str(".", ""));
        out.push(concat_str("..", ""));
    }
    let ghost dots: Seq<Seq<char>> = if show_all {
        seq!["."@, ".."@]
    } else {
        Seq::empty()
    };
    assert(views(out@) =~= dots);
    let mut j: usize = 0;
    while j < sorted.len()
        invariant
            j <= sorted@.len(),
            views(out@) == dots + views(sorted@).subrange(0, j as int),
        decreases sorted@.len() - j,
    {
        let ghost before = out@;
        out.push(sorted[j].clone());
        assert(views(out@) =~= views(before).push(sorted@[j as int]@));
        assert(views(sorted@).subrange(0, j + 1) =~= views(sorted@).subrange(0, j as int).push(sorted@[j as int]@));
        j = j + 1;
    }
    assert(views(sorted@).subrange(0, sorted@.len() as int) =~= views(sorted@));
    assert(views(out@).skip(dots.len() as int) =~= views(sorted@));
    assert(views(out@).take(dots.len() as int) =~= dots);
    out
}

/// The blocks of 1024 bytes that a file of `size` bytes is counted as.
pub open spec fn blocks_of(size: nat) -> nat {
    (size + 1023) / 1024
}

/// The sum of the blocks of each size.
pub open spec fn blocks_total(sizes: Seq<u64>) -> nat
    decreases sizes.len(),
{
    if sizes.len() == 0 {
        0
    } else {
        blocks_total(sizes.drop_last()) + blocks_of(sizes.last() as nat)
    }
}

/// Whether the sum can be taken in 64 bits: each size leaves room for the
/// rounding, and each partial sum fits.
pub open spec fn blocks_fit(sizes: Seq<u64>) -> bool {
    forall|i: int| 0 <= i < sizes.len() ==> {
        &&& #[trigger] sizes[i] + 1023 <= u64::MAX
        &&& blocks_total(sizes.take(i + 1)) <= u64::MAX
    }
}

/// The number on the `total` line of a long listing; `None` where the
/// arithmetic would overflow.
pub fn total_blocks(sizes: &[u64]) -> (r: Option<u64>)
    ensures
        match r {
            Some(t) => blocks_fit(sizes@) && t == blocks_total(sizes@),
            None => !blocks_fit(sizes@),
        },
{
    let mut total: u64 = 0;
    let mut i: usize = 0;
    assert(sizes@.take(0) =~= Seq::<u64>::empty());
    while i < sizes.len()
        invariant
            i <= sizes@.len(),
            total == blocks_total(sizes@.take(i as int)),
            forall|k: int| 0 <= k < i ==> {
                &&& #[trigger] sizes@[k] + 1023 <= u64::MAX
                &&& blocks_total(sizes@.take(k + 1)) <= u64::MAX
            },
        decreases sizes@.len() - i,
    {
        let s = sizes[i];
        assert(sizes@.take(i + 1).drop_last() =~= sizes@.take(i as int));
        if s > u64::MAX - 1023 {
            return None;
        }
        let b = (s + 1023) / 1024;
        if total > u64::MAX - b {
            return None;
        }
        total = total + b;
        i = i + 1;
    }
    assert(sizes@.take(sizes@.len() as int) =~= sizes@);
    Some(total)
}

/// The character for one permission bit: `c` where it is set, else `-`.
pub open spec fn bit_char(mode: u32, bit: u32, c: char) -> char {
    if mode & bit != 0 {
        c
    } else {
        '-'
    }
}

/// `rwx` for the three bits at `shift`, with `-` for each that is clear.
pub open spec fn triplet_text(mode: u32, shift: u32) -> Seq<char> {
    seq![
        bit_char(mode, (4u32 << shift) as u32, 'r'),
        bit_char(mode, (2u32 << shift) as u32, 'w'),
        bit_char(mode, (1u32 << shift) as u32, 'x'),
    ]
}

/// The nine permission characters of a long listing: owner, group, others.
pub open spec fn permissions_text(mode: u32) -> Seq<char> {
    triplet_text(mode, 6) + triplet_text(mode, 3) + triplet_text(mode, 0)
}

fn triplet(out: &mut String, mode: u32, shift: u32)
    requires
        shift <= 6,
    ensures
        final(out)@ == old(out)@ + triplet_text(mode, shift),
{
    let r = if mode & (4u32 << shift) != 0 {
        'r'
    } else {
        '-'
    };
    let w = if mode & (2u32 << shift) != 0 {
        'w'
    } else {
        '-'
    };
    let x = if mode & (1u32 << shift) != 0 {
        'x'
    } else {
        '-'
    };
    let ghost start = out@;
    push_char(out, r);
    push_char(out, w);
    push_char(out, x);
    assert(out@ =~= start + triplet_text(mode, shift));
}

pub fn format_permissions(mode: u32) -> (r: String)
    ensures
        r@ == permissions_text(mode),
{
    let mut out = String::new();
    triplet(&mut out, mode, 6);
    triplet(&mut out, mode, 3);
    triplet(&mut out, mode, 0);
    assert(out@ =~= permissions_text(mode));
    out
}

/// The Gregorian leap-year rule.
pub open spec fn leap(y: int) -> bool {
    (y % 4 == 0 && y % 100 != 0) || y % 400 == 0
}

#[verifier::rlimit(40)]
pub fn is_leap_year(y: i64) -> (r: bool)
    ensures
        r == leap(y as int),
{
    (y % 4 == 0 && y % 100 != 0) || y % 400 == 0
}

pub open spec fn year_length(y: int) -> int {
    if leap(y) {
        366
    } else {
        365
    }
}

/// The year in which day `rem` (counted from the start of year `y`) falls,
/// and the day within it.
pub open spec fn walk_years(y: int, rem: int) -> (int, int)
    decreases rem,
{
    if rem < year_length(y) {
        (y, rem)
    } else {
        walk_years(y + 1, rem - year_length(y))
    }
}

pub open spec fn month_length(leap_year: bool, m: int) -> int {
    if m == 1 {
        if leap_year {
            29
        } else {
            28
        }
    } else if m == 3 || m == 5 || m == 8 || m == 10 {
        30
    } else {
        31
    }
}

/// The month (from 0) in which day `rem` of the year falls, counting from
/// month `m`, and the day within it.
pub open spec fn walk_months(leap_year: bool, m: int, rem: int) -> (int, int)
    decreases 12 - m,
{
    if m >= 12 || rem < month_length(leap_year, m) {
        (m, rem)
    } else {
        walk_months(leap_year, m + 1, rem - month_length(leap_year, m))
    }
}

/// The (year, month, day) of the day `days` after 1970-01-01; a day before
/// it is reported as a day of January 1970 numbered 0 or less.
pub open spec fn date_of(days: int) -> (int, int, int) {
    let (y, rem) = walk_years(1970, days);
    let (m, d) = walk_months(leap(y), 0, rem);
    (y, m + 1, d + 1)
}

fn month_days(leap_year: bool, m: usize) -> (r: i64)
    ensures
        r == month_length(leap_year, m as int),
{
    if m == 1 {
        if leap_year {
            29
        } else {
            28
        }
    } else if m == 3 || m == 5 || m == 8 || m == 10 {
        30
    } else {
        31
    }
}

pub fn days_to_date(days: i64) -> (r: (i64, i64, i64))
    ensures
        (r.0 as int, r.1 as int, r.2 as int) == date_of(days as int),
{
    let mut y: i64 = 1970;
    let mut remaining = days;
    let mut year_len: i64 = if is_leap_year(y) {
        366
    } else {
        365
    };
    while remaining >= year_len
        invariant
            y >= 1970,
            remaining <= days,
            365 * (y - 1970) <= days - remaining,
            year_len == year_length(y as int),
            walk_years(1970, days as int) == walk_years(y as int, remaining as int),
        decreases remaining,
    {
        remaining = remaining - year_len;
        y = y + 1;
        year_len = if is_leap_year(y) {
            366
        } else {
            365
        };
    }
    let leap_year = is_leap_year(y);
    let ghost rem0 = remaining;
    let mut m: usize = 0;
    while m < 12 && remaining >= month_days(leap_year, m)
        invariant
            m <= 12,
            remaining <= rem0,
            rem0 < 366,
            walk_months(leap_year, 0, rem0 as int) == walk_months(leap_year, m as int, remaining as int),
        decreases 12 - m,
    {
        let md = month_days(leap_year, m);
        remaining = remaining - md;
        m = m + 1;
    }
    (y, (m + 1) as i64, remaining + 1)
}

/// The whole days since 1970 of a count of seconds read as a signed
/// 64-bit number and divided with truncation.
pub open spec fn signed_days(secs: u64) -> int {
    if secs <= i64::MAX {
        (secs / 86400) as int
    } else {
        -(((0x1_0000_0000_0000_0000 - secs) / 86400) as int)
    }
}

fn days_from_seconds(secs: u64) -> (r: i64)
    ensures
        r == signed_days(secs),
{
    if secs <= i64::MAX as u64 {
        (secs / 86400) as i64
    } else {
        let magnitude: u64 = (u64::MAX - secs) + 1;
        -((magnitude / 86400) as i64)
    }
}

/// The year that the listing takes as the current one: whole days of
/// `now` divided by 365 (with truncation), from 1970.
pub open spec fn current_year_of(now: u64) -> int {
    let d = signed_days(now);
    (if d >= 0 {
        d / 365
    } else {
        -((-d) / 365)
    }) + 1970
}

pub open spec fn month_name(m: int) -> Seq<char> {
    if m == 1 {
        "Jan"@
    } else if m == 2 {
        "Feb"@
    } else if m == 3 {
        "Mar"@
    } else if m == 4 {
        "Apr"@
    } else if m == 5 {
        "May"@
    } else if m == 6 {
        "Jun"@
    } else if m == 7 {
        "Jul"@
    } else if m == 8 {
        "Aug"@
    } else if m == 9 {
        "Sep"@
    } else if m == 10 {
        "Oct"@
    } else if m == 11 {
        "Nov"@
    } else if m == 12 {
        "Dec"@
    } else {
        "???"@
    }
}

fn month_name_str(m: i64) -> (r: &'static str)
    ensures
        r@ == month_name(m as int),
{
    if m == 1 {
        "Jan"
    } else if m == 2 {
        "Feb"
    } else if m == 3 {
        "Mar"
    } else if m == 4 {
        "Apr"
    } else if m == 5 {
        "May"
    } else if m == 6 {
        "Jun"
    } else if m == 7 {
        "Jul"
    } else if m == 8 {
        "Aug"
    } else if m == 9 {
        "Sep"
    } else if m == 10 {
        "Oct"
    } else if m == 11 {
        "Nov"
    } else if m == 12 {
        "Dec"
    } else {
        "???"
    }
}

/// The date column of a long listing for a file modified `secs` seconds
/// after 1970 (`???` where the time is unknown) when the clock reads `now`:
/// month, day and `HH:MM` within the current year, else month, day and
/// year.
pub open spec fn mtime_text(secs: Option<u64>, now: u64) -> Seq<char> {
    match secs {
        None => "???"@,
        Some(s) => {
            let (year, month, day) = date_of(signed_days(s));
            let time_of_day = s % 86400;
            let hour = time_of_day / 3600;
            let minute = (time_of_day % 3600) / 60;
            let head = month_name(month) + " "@ + pad_left(signed_decimal(day), 2, ' ');
            if year == current_year_of(now) {
                head + " "@ + pad_left(decimal(hour as nat), 2, '0') + ":"@ + pad_left(decimal(minute as nat), 2, '0')
            } else {
                head + "  "@ + signed_decimal(year)
            }
        },
    }
}

pub fn format_mtime(secs: Option<u64>, now: u64) -> (r: String)
    ensures
        r@ == mtime_text(secs, now),
{
    match secs {
        None => {
            proof {
                reveal_strlit("");
                reveal_strlit("???");
            }
            concat_str("???", "")
        },
        Some(s) => {
            let days = days_from_seconds(s);
            let (year, month, day) = days_to_date(days);
            let time_of_day = s % 86400;
            let hour = time_of_day / 3600;
            let minute = (time_of_day % 3600) / 60;
            let now_days = days_from_seconds(now);
            let current_year: i64 = if now_days >= 0 {
                now_days / 365 + 1970
            } else {
                -((-now_days) / 365) + 1970
            };
            let day_text = signed_decimal_string(day);
            let mut out = concat_str(month_name_str(month), " ");
            let padded = pad_left_string(day_text.as_str(), 2, ' ');
            out.append(padded.as_str());
            if year == current_year {
                push_char(&mut out, ' ');
                let h = decimal_string(hour);
                let hp = pad_left_string(h.as_str(), 2, '0');
                out.append(hp.as_str());
                push_char(&mut out, ':');
                let mi = decimal_string(minute);
                let mp = pad_left_string(mi.as_str(), 2, '0');
                out.append(mp.as_str());
            } else {
                push_char(&mut out, ' ');
                push_char(&mut out, ' ');
                let yt = signed_decimal_string(year);
                out.append(yt.as_str());
            }
            proof {
                reveal_strlit(" ");
                reveal_strlit("  ");
                reveal_strlit(":");
                assert(out@ =~= mtime_text(secs, now));
            }
            out
        },
    }
}

/// The first column of a long listing: `d` for a directory, `l` for a
/// symbolic link, `-` otherwise.
pub open spec fn type_char(is_dir: bool, is_symlink: bool) -> char {
    if is_dir {
        'd'
    } else if is_symlink {
        'l'
    } else {
        '-'
    }
}

/// One line of a long listing: type and permissions, link count (width 3),
/// owner and group ids and size (width 8 each), date, name, and for a
/// symbolic link ` -> ` and its target.
pub open spec fn long_entry_text(
    is_dir: bool,
    is_symlink: bool,
    mode: u32,
    nlink: u64,
    uid: u32,
    gid: u32,
    size: u64,
    time: Seq<char>,
    name: Seq<char>,
    link_target: Option<Seq<char>>,
) -> Seq<char> {
    seq![type_char(is_dir, is_symlink)] + permissions_text(mode) + " "@ + pad_left(decimal(nlink as nat), 3, ' ') + " "@
        + pad_left(decimal(uid as nat), 8, ' ') + " "@ + pad_left(decimal(gid as nat), 8, ' ') + " "@ + pad_left(
        decimal(size as nat),
        8,
        ' ',
    ) + " "@ + time + " "@ + name + match link_target {
        Some(t) => " -> "@ + t,
        None => Seq::empty(),
    }
}

fn push_padded(out: &mut String, n: u64, width: usize)
    ensures
        final(out)@ == old(out)@ + " "@ + pad_left(decimal(n as nat), width as nat, ' '),
{
    proof {
        reveal_strlit(" ");
    }
    push_char(out, ' ');
    let d = decimal_string(n);
    let p = pad_left_string(d.as_str(), width, ' ');
    out.append(p.as_str());
}

pub fn long_entry(
    is_dir: bool,
    is_symlink: bool,
    mode: u32,
    nlink: u64,
    uid: u32,
    gid: u32,
    size: u64,
    time: &str,
    name: &str,
    link_target: Option<&str>,
) -> (r: String)
    ensures
        r@ == long_entry_text(
            is_dir,
            is_symlink,
            mode,
            nlink,
            uid,
            gid,
            size,
            time@,
            name@,
            match link_target {
                Some(t) => Some(t@),
                None => None,
            },
        ),
{
    let mut out = String::new();
    let t = if is_dir {
        'd'
    } else if is_symlink {
        'l'
    } else {
        '-'
    };
    push_char(&mut out, t);
    let perms = format_permissions(mode);
    out.append(perms.as_str());
    push_padded(&mut out, nlink, 3);
    push_padded(&mut out, uid as u64, 8);
    push_padded(&mut out, gid as u64, 8);
    push_padded(&mut out, size, 8);
    push_char(&mut out, ' ');
    out.append(time);
    push_char(&mut out, ' ');
    out.append(name);
    match link_target {
        Some(target) => {
            out.append(" -> ");
            out.append(target);
        },
        None => {},
    }
    proof {
        reveal_strlit(" ");
    }
    assert(out@ =~= long_entry_text(
        is_dir,
        is_symlink,
        mode,
        nlink,
        uid,
        gid,
        size,
        time@,
        name@,
        match link_target {
            Some(t) => Some(t@),
            None => None,
        },
    ));
    out
}

/// The path of an entry of the directory `path`.
pub fn child_path(path: &str, name: &str) -> (r: String)
    ensures
        r@ == path@ + "/"@ + name@,
{
    let mut out = concat_str(path, "/");
    out.append(name);
    out
}

/// Whether `-R` descends into an entry of this name (never `.` or `..`).
pub fn descends_into(name: &str) -> (r: bool)
    ensures
        r == (name@ != "."@ && name@ != ".."@),
{
    !str_eq(name, ".") && !str_eq(name, "..")
}

/// The exit status: 2 where some path could not be listed, else 0.
pub fn ls_status(had_error: bool) -> (r: i32)
    ensures
        r == (if had_error {
            2int
        } else {
            0int
        }),
{
    if had_error {
        2
    } else {
        0
    }
}

} // verus!
