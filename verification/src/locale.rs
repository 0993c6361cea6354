//! The locale the process runs in, read from the standard settings.

use vstd::prelude::*;
use crate::args::{first_char_index, first_index};
use crate::text::{chars_of, string_of_range};

verus! {

#[derive(Debug, Clone, PartialEq)]
pub enum LocaleCategory {
    LcAll,
    LcCtype,
    Lang,
}

#[derive(Debug, Clone)]
pub struct Locale {
    pub lang: String,
    pub encoding: String,
    pub utf8: bool,
}

/// The uppercase form of a string, as `str::to_uppercase` gives it.
pub uninterp spec fn uppercase_string(s: Seq<char>) -> Seq<char>;

/// `str::to_uppercase`.
/// Trusted: the result is the one named by [`uppercase_string`].
#[verifier::external_body]
fn to_uppercase_string(s: &str) -> (r: String)
    ensures
        r@ == uppercase_string(s@),
{
    s.to_uppercase()
}

/// Whether `needle` occurs in `hay` at position `i`.
pub open spec fn occurs_at(hay: Seq<char>, needle: Seq<char>, i: int) -> bool {
    0 <= i && i + needle.len() <= hay.len() && hay.subrange(i, i + needle.len()) == needle
}

/// Whether `needle` occurs anywhere in `hay`.
pub open spec fn contains_seq(hay: Seq<char>, needle: Seq<char>) -> bool {
    exists|i: int| #[trigger] occurs_at(hay, needle, i)
}

/// The setting that decides the locale: `LC_ALL`, else `LC_CTYPE`, else
/// `LANG`, else `C`.
pub open spec fn chosen_setting(lc_all: Option<String>, lc_ctype: Option<String>, lang: Option<String>) -> Seq<char> {
    match lc_all {
        Some(s) => s@,
        None => match lc_ctype {
            Some(s) => s@,
            None => match lang {
                Some(s) => s@,
                None => "C"@,
            },
        },
    }
}

/// Whether `needle` occurs in `hay`.
pub(crate) fn contains_chars(hay: &Vec<char>, needle: &Vec<char>) -> (r: bool)
    ensures
        r == contains_seq(hay@, needle@),
{
    let n = hay.len();
    let m = needle.len();
    if m > n {
        assert forall|i: int| !occurs_at(hay@, needle@, i) by {}
        return false;
    }
    let last = n - m;
    let mut i: usize = 0;
    loop
        invariant
            n == hay@.len(),
            m == needle@.len(),
            m <= n,
            last == n - m,
            i <= last,
            forall|k: int| 0 <= k < i ==> !#[trigger] occurs_at(hay@, needle@, k),
        ensures
            forall|k: int| 0 <= k <= last ==> !#[trigger] occurs_at(hay@, needle@, k),
        decreases last - i,
    {
        if occurs_here(hay, needle, i) {
            return true;
        }
        if i == last {
            break;
        }
        i = i + 1;
    }
    assert forall|k: int| !occurs_at(hay@, needle@, k) by {
        if occurs_at(hay@, needle@, k) {
            assert(k <= last);
        }
    }
    false
}

/// Whether `needle` occurs in `hay` at position `i`.
pub(crate) fn occurs_here(hay: &Vec<char>, needle: &Vec<char>, i: usize) -> (r: bool)
    requires
        i + needle@.len() <= hay@.len(),
    ensures
        r == occurs_at(hay@, needle@, i as int),
{
    let n = hay.len();
    let mut j: usize = 0;
    while j < needle.len()
        invariant
            n == hay@.len(),
            i + needle@.len() <= hay@.len(),
            j <= needle@.len(),
            forall|k: int| 0 <= k < j ==> hay@[i + k] == needle@[k],
        decreases needle@.len() - j,
    {
        if hay[i + j] != needle[j] {
            assert(hay@.subrange(i as int, i + needle@.len())[j as int] != needle@[j as int]);
            return false;
        }
        j = j + 1;
    }
    assert(hay@.subrange(i as int, i + needle@.len()) =~= needle@);
    true
}

impl Locale {
    /// The locale described by the `LC_ALL`, `LC_CTYPE` and `LANG` settings
    /// (each absent where it is `None`): the language before the first `.`,
    /// the encoding after it (`ASCII` where there is none), and whether the
    /// setting names UTF-8.
    pub fn from_settings(lc_all: Option<String>, lc_ctype: Option<String>, lang: Option<String>) -> (r: Locale)
        ensures
            ({
                let s = chosen_setting(lc_all, lc_ctype, lang);
                &&& r.utf8 == (contains_seq(uppercase_string(s), "UTF-8"@) || contains_seq(
                    uppercase_string(s),
                    "UTF8"@,
                ))
                &&& match first_index(s, '.', 0) {
                    Some(d) => r.lang@ == s.subrange(0, d) && r.encoding@ == s.subrange(d + 1, s.len() as int),
                    None => r.lang@ == s && r.encoding@ == "ASCII"@,
                }
            }),
    {
        let ghost s = chosen_setting(lc_all, lc_ctype, lang);
        let setting = match lc_all {
            Some(v) => v,
            None => match lc_ctype {
                Some(v) => v,
                None => match lang {
                    Some(v) => v,
                    None => String::from_str("C"),
                },
            },
        };
        let upper = chars_of(to_uppercase_string(setting.as_str()).as_str());
        let utf8_dash = chars_of("UTF-8");
        let utf8_plain = chars_of("UTF8");
        let utf8 = contains_chars(&upper, &utf8_dash) || contains_chars(&upper, &utf8_plain);
        let cs = chars_of(setting.as_str());
        let len = cs.len();
        match first_char_index(&cs, '.', 0) {
            Some(d) => {
                Locale {
                    lang: string_of_range(&cs, 0, d),
                    encoding: string_of_range(&cs, d + 1, len),
                    utf8,
                }
            },
            None => Locale { lang: setting, encoding: String::from_str("ASCII"), utf8 },
        }
    }

    /// Whether the language is Turkish (`tr` or `TR` at its start).
    pub fn is_turkish(&self) -> (r: bool)
        ensures
            r == (self.lang@.len() >= 2 && ((self.lang@[0] == 't' && self.lang@[1] == 'r') || (self.lang@[0]
                == 'T' && self.lang@[1] == 'R'))),
    {
        let cs = chars_of(self.lang.as_str());
        cs.len() >= 2 && ((cs[0] == 't' && cs[1] == 'r') || (cs[0] == 'T' && cs[1] == 'R'))
    }
}

} // verus!
