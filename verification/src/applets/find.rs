//! `find`: its options, which paths it prints, and the order of the walk
//! over a tree (depth first, the entries of each directory by name), which
//! `tar -c` shares.

use vstd::prelude::*;
use crate::applets::cat::strings_view;
use crate::applets::files::{matches_name, name_matches};
use crate::text::{chars_of, concat_str, lossy_text, push_char, str_eq, utf8_lossy};

verus! {

broadcast use vstd::std_specs::vec::group_vec_axioms;

#[derive(Debug, Clone)]
pub struct FindOptions {
    pub start_paths: Vec<String>,
    pub name_filter: Option<String>,
    pub type_filter: Option<char>,
}

/// Why a command line was refused; each ends the run with status 2.
#[derive(Debug, Clone)]
pub enum FindUsage {
    MissingName,
    MissingType,
    Unsupported(String),
}

pub enum FindUsageView {
    MissingName,
    MissingType,
    Unsupported(Seq<char>),
}

pub open spec fn find_usage_view(e: FindUsage) -> FindUsageView {
    match e {
        FindUsage::MissingName => FindUsageView::MissingName,
        FindUsage::MissingType => FindUsageView::MissingType,
        FindUsage::Unsupported(s) => FindUsageView::Unsupported(s@),
    }
}

pub open spec fn first_char(s: Seq<char>) -> Option<char> {
    if s.len() > 0 {
        Some(s[0])
    } else {
        None
    }
}

/// How `find` reads its arguments from index `k` on: `-name PATTERN`,
/// `-type KIND` (its first character, if any), any other argument
/// beginning with `-` is refused, the rest are starting points.
pub open spec fn find_args(
    args: Seq<Seq<char>>,
    k: int,
    name: Option<Seq<char>>,
    kind: Option<char>,
    starts: Seq<Seq<char>>,
) -> Result<(Option<Seq<char>>, Option<char>, Seq<Seq<char>>), FindUsageView>
    decreases args.len() - k,
{
    if k < 0 || k >= args.len() {
        Ok((name, kind, starts))
    } else {
        let a = args[k];
        if a == "-name"@ {
            if k + 1 < args.len() {
                find_args(args, k + 2, Some(args[k + 1]), kind, starts)
            } else {
                Err(FindUsageView::MissingName)
            }
        } else if a == "-type"@ {
            if k + 1 < args.len() {
                find_args(args, k + 2, name, first_char(args[k + 1]), starts)
            } else {
                Err(FindUsageView::MissingType)
            }
        } else if a.len() > 0 && a[0] == '-' {
            Err(FindUsageView::Unsupported(a))
        } else {
            find_args(args, k + 1, name, kind, starts.push(a))
        }
    }
}

pub open spec fn opt_view(o: Option<String>) -> Option<Seq<char>> {
    match o {
        Some(s) => Some(s@),
        None => None,
    }
}

impl FindOptions {
    pub fn parse(args: &[String]) -> (r: Result<FindOptions, FindUsage>)
        ensures
            match find_args(strings_view(args@), 0, None, None, Seq::empty()) {
                Ok((name, kind, starts)) => r matches Ok(o) && opt_view(o.name_filter) == name && o.type_filter == kind
                    && strings_view(o.start_paths@) == starts,
                Err(e) => r matches Err(x) && find_usage_view(x) == e,
            },
    {
        let ghost all = strings_view(args@);
        let mut name: Option<String> = None;
        let mut kind: Option<char> = None;
        let mut starts: Vec<String> = Vec::new();
        let n = args.len();
        let mut k: usize = 0;
        assert(strings_view(starts@) =~= Seq::<Seq<char>>::empty());
        while k < n
            invariant
                k <= n,
                n == args@.len(),
                all == strings_view(args@),
                find_args(all, 0, None, None, Seq::empty()) == find_args(
                    all,
                    k as int,
                    opt_view(name),
                    kind,
                    strings_view(starts@),
                ),
            decreases n - k,
        {
            let a = args[k].as_str();
            assert(all[k as int] == a@);
            if str_eq(a, "-name") {
                if k + 1 < n {
                    assert(all[k + 1] == args@[k + 1]@);
                    name = Some(args[k + 1].clone());
                    k = k + 2;
                } else {
                    return Err(FindUsage::MissingName);
                }
            } else if str_eq(a, "-type") {
                if k + 1 < n {
                    assert(all[k + 1] == args@[k + 1]@);
                    let cs = chars_of(args[k + 1].as_str());
                    kind = if cs.len() > 0 {
                        Some(cs[0])
                    } else {
                        None
                    };
                    k = k + 2;
                } else {
                    return Err(FindUsage::MissingType);
                }
            } else {
                let cs = chars_of(a);
                if cs.len() > 0 && cs[0] == '-' {
                    return Err(FindUsage::Unsupported(args[k].clone()));
                }
                let ghost before = starts@;
                starts.push(args[k].clone());
                assert(strings_view(starts@) =~= strings_view(before).push(a@));
                k = k + 1;
            }
        }
        Ok(FindOptions { start_paths: starts, name_filter: name, type_filter: kind })
    }
}

pub open spec fn find_usage_message(e: FindUsageView) -> Seq<char> {
    match e {
        FindUsageView::MissingName => "find: missing argument to -name"@,
        FindUsageView::MissingType => "find: missing argument to -type"@,
        FindUsageView::Unsupported(s) => "find: unsupported option '"@ + s + "'"@,
    }
}

impl FindUsage {
    pub fn message(&self) -> (r: String)
        ensures
            r@ == find_usage_message(find_usage_view(*self)),
    {
        proof {
            reveal_strlit("");
        }
        match self {
            FindUsage::MissingName => concat_str("find: missing argument to -name", ""),
            FindUsage::MissingType => concat_str("find: missing argument to -type", ""),
            FindUsage::Unsupported(s) => {
                let mut out = concat_str("find: unsupported option '", s.as_str());
                out.append("'");
                out
            },
        }
    }

    pub fn code(&self) -> (r: i32)
        ensures
            r == 2,
    {
        2
    }
}

/// Whether `find` prints a path: of the kind `-type` asks for (`f` a
/// regular file, `d` a directory, any other letter nothing), and with a
/// final name that `-name` selects.
pub open spec fn selects(kind: Option<char>, name: Option<Seq<char>>, is_file: bool, is_dir: bool, file_name: Seq<char>) -> bool {
    (match kind {
        None => true,
        Some(k) => if k == 'f' {
            is_file
        } else if k == 'd' {
            is_dir
        } else {
            false
        },
    }) && (match name {
        None => true,
        Some(p) => name_matches(file_name, p),
    })
}

pub fn find_selects(options: &FindOptions, is_file: bool, is_dir: bool, file_name: &str) -> (r: bool)
    ensures
        r == selects(options.type_filter, opt_view(options.name_filter), is_file, is_dir, file_name@),
{
    let type_ok = match options.type_filter {
        None => true,
        Some(k) => if k == 'f' {
            is_file
        } else if k == 'd' {
            is_dir
        } else {
            false
        },
    };
    if !type_ok {
        return false;
    }
    match &options.name_filter {
        None => true,
        Some(p) => matches_name(file_name, p.as_str()),
    }
}

/// A path as printed: its bytes as UTF-8, invalid sequences replaced.
pub fn normalize_path(path: &[u8]) -> (r: String)
    ensures
        r@ == utf8_lossy(path@),
{
    lossy_text(path)
}

// ---------------------------------------------------------------------------
// The walk
// ---------------------------------------------------------------------------

/// Whether the bytes `a` come strictly before `b`.
pub open spec fn bytes_less(a: Seq<u8>, b: Seq<u8>) -> bool
    decreases a.len(),
{
    if a.len() == 0 {
        b.len() > 0
    } else if b.len() == 0 {
        false
    } else if a[0] != b[0] {
        a[0] < b[0]
    } else {
        bytes_less(a.skip(1), b.skip(1))
    }
}

/// Whether `s` runs from the largest to the smallest.
pub open spec fn descending(s: Seq<Seq<u8>>) -> bool {
    forall|i: int, j: int| 0 <= i < j < s.len() ==> !bytes_less(#[trigger] s[i], #[trigger] s[j])
}

proof fn lemma_bytes_total(a: Seq<u8>, b: Seq<u8>)
    ensures
        bytes_less(a, b) || a == b || bytes_less(b, a),
        !(bytes_less(a, b) && bytes_less(b, a)),
        !bytes_less(a, a),
    decreases a.len(),
{
    if a.len() > 0 && b.len() > 0 && a[0] == b[0] {
        lemma_bytes_total(a.skip(1), b.skip(1));
        if a.skip(1) == b.skip(1) {
            assert(a =~= seq![a[0]] + a.skip(1));
            assert(b =~= seq![b[0]] + b.skip(1));
        }
    } else if a.len() == 0 && b.len() == 0 {
        assert(a =~= b);
    }
    if a.len() > 0 {
        lemma_bytes_total(a.skip(1), a.skip(1));
    }
}

proof fn lemma_bytes_trans(a: Seq<u8>, b: Seq<u8>, c: Seq<u8>)
    requires
        bytes_less(a, b),
        bytes_less(b, c),
    ensures
        bytes_less(a, c),
    decreases a.len(),
{
    if a.len() > 0 && b.len() > 0 && c.len() > 0 && a[0] == b[0] && b[0] == c[0] {
        lemma_bytes_trans(a.skip(1), b.skip(1), c.skip(1));
    }
}

fn less_bytes(a: &Vec<u8>, b: &Vec<u8>) -> (r: bool)
    ensures
        r == bytes_less(a@, b@),
{
    let mut i: usize = 0;
    assert(a@.skip(0) =~= a@);
    assert(b@.skip(0) =~= b@);
    while i < a.len() && i < b.len() && a[i] == b[i]
        invariant
            i <= a@.len(),
            i <= b@.len(),
            bytes_less(a@, b@) == bytes_less(a@.skip(i as int), b@.skip(i as int)),
        decreases a@.len() - i,
    {
        assert(a@.skip(i as int).skip(1) =~= a@.skip(i + 1));
        assert(b@.skip(i as int).skip(1) =~= b@.skip(i + 1));
        i = i + 1;
    }
    if i == a.len() {
        i < b.len()
    } else if i == b.len() {
        false
    } else {
        a[i] < b[i]
    }
}

/// The names from largest to smallest (byte order), each kept as often as
/// it occurs.
fn sort_descending(items: Vec<Vec<u8>>) -> (r: Vec<Vec<u8>>)
    ensures
        descending(r@.map_values(|v: Vec<u8>| v@)),
        r@.map_values(|v: Vec<u8>| v@).to_multiset() == items@.map_values(|v: Vec<u8>| v@).to_multiset(),
{
    let ghost view = |v: Vec<u8>| v@;
    let mut out: Vec<Vec<u8>> = Vec::new();
    let mut i: usize = 0;
    proof {
        assert(out@.map_values(view) =~= Seq::<Seq<u8>>::empty());
        assert(items@.map_values(view).subrange(0, 0) =~= Seq::<Seq<u8>>::empty());
    }
    while i < items.len()
        invariant
            i <= items@.len(),
            view == (|v: Vec<u8>| v@),
            descending(out@.map_values(view)),
            out@.map_values(view).to_multiset() == items@.map_values(view).subrange(0, i as int).to_multiset(),
        decreases items@.len() - i,
    {
        let key = items[i].clone();
        let mut j: usize = 0;
        while j < out.len() && !less_bytes(&out[j], &key)
            invariant
                j <= out@.len(),
                forall|k: int| 0 <= k < j ==> !bytes_less(#[trigger] out@[k]@, key@),
            decreases out@.len() - j,
        {
            j = j + 1;
        }
        let ghost before = out@.map_values(view);
        proof {
            assert(j < out@.len() ==> bytes_less(before[j as int], key@));
        }
        out.insert(j, key);
        proof {
            let after = out@.map_values(view);
            assert(after =~= before.insert(j as int, key@));
            before.insert_ensures(j as int, key@);
            assert forall|a: int, b: int| 0 <= a < b < after.len() implies !bytes_less(#[trigger] after[a], #[trigger] after[b]) by {
                if b < j {
                    assert(after[a] == before[a] && after[b] == before[b]);
                } else if b == j {
                    assert(after[a] == before[a]);
                    assert(!bytes_less(before[a], key@));
                } else if a == j {
                    assert(after[b] == before[b - 1]);
                    assert(bytes_less(before[j as int], key@));
                    lemma_bytes_total(before[j as int], key@);
                    if j < b - 1 {
                        assert(!bytes_less(before[j as int], before[b - 1]));
                        lemma_bytes_total(before[j as int], before[b - 1]);
                        if bytes_less(key@, before[b - 1]) {
                            lemma_bytes_trans(before[j as int], key@, before[b - 1]);
                        }
                    } else {
                        if bytes_less(key@, before[b - 1]) {
                            lemma_bytes_total(key@, before[b - 1]);
                        }
                    }
                } else if a < j {
                    assert(after[a] == before[a] && after[b] == before[b - 1]);
                } else {
                    assert(after[a] == before[a - 1] && after[b] == before[b - 1]);
                }
            }
            assert(items@.map_values(view).subrange(0, i + 1) =~= items@.map_values(view).subrange(0, i as int).push(key@));
            vstd::seq_lib::to_multiset_insert(before, j as int, key@);
            vstd::seq_lib::to_multiset_build(items@.map_values(view).subrange(0, i as int), key@);
        }
        i = i + 1;
    }
    assert(items@.map_values(view).subrange(0, items@.len() as int) =~= items@.map_values(view));
    out
}

pub open spec fn byte_paths(v: Seq<Vec<u8>>) -> Seq<Seq<u8>> {
    v.map_values(|p: Vec<u8>| p@)
}

/// The paths still to visit, the next one last.
pub struct PathWalk {
    pending: Vec<Vec<u8>>,
}

impl PathWalk {
    pub closed spec fn pending_view(&self) -> Seq<Seq<u8>> {
        byte_paths(self.pending@)
    }

    /// A walk from the given paths (`.` where none is); the last one given
    /// is visited first.
    pub fn new(starts: Vec<Vec<u8>>) -> (r: Self)
        ensures
            r.pending_view() == (if starts@.len() == 0 {
                seq![seq![46u8]]
            } else {
                byte_paths(starts@)
            }),
    {
        if starts.len() == 0 {
            let mut v: Vec<Vec<u8>> = Vec::new();
            v.push(vec![46u8]);
            let w = PathWalk { pending: v };
            assert(w.pending@[0]@ =~= seq![46u8]);
            assert(w.pending_view() =~= seq![seq![46u8]]);
            w
        } else {
            PathWalk { pending: starts }
        }
    }

    /// The next path to visit, or `None` when the walk is over.
    pub fn next_path(&mut self) -> (r: Option<Vec<u8>>)
        ensures
            old(self).pending_view().len() == 0 ==> r is None && final(self).pending_view().len() == 0,
            old(self).pending_view().len() > 0 ==> (r matches Some(p) && p@ == old(self).pending_view().last()
                && final(self).pending_view() == old(self).pending_view().drop_last()),
    {
        let ghost before = self.pending@;
        let r = self.pending.pop();
        proof {
            if before.len() > 0 {
                assert(byte_paths(self.pending@) =~= byte_paths(before).drop_last());
            }
        }
        r
    }

    /// Queues the entries of the directory just visited so that they come
    /// next, smallest name first.
    pub fn push_children(&mut self, children: Vec<Vec<u8>>)
        ensures
            ({
                let added = final(self).pending_view().skip(old(self).pending_view().len() as int);
                &&& final(self).pending_view().len() == old(self).pending_view().len() + children@.len()
                &&& final(self).pending_view().take(old(self).pending_view().len() as int) == old(self).pending_view()
                &&& descending(added)
                &&& added.to_multiset() == byte_paths(children@).to_multiset()
            }),
    {
        let sorted = sort_descending(children);
        let ghost base = byte_paths(self.pending@);
        let ghost sv = byte_paths(sorted@);
        assert(sv =~= sorted@.map_values(|v: Vec<u8>| v@));
        let mut i: usize = 0;
        while i < sorted.len()
            invariant
                i <= sorted@.len(),
                sv == byte_paths(sorted@),
                byte_paths(self.pending@) == base + sv.subrange(0, i as int),
            decreases sorted@.len() - i,
        {
            let ghost before = self.pending@;
            self.pending.push(sorted[i].clone());
            assert(byte_paths(self.pending@) =~= byte_paths(before).push(sorted@[i as int]@));
            assert(sv.subrange(0, i + 1) =~= sv.subrange(0, i as int).push(sv[i as int]));
            i = i + 1;
        }
        assert(sv.subrange(0, sorted@.len() as int) =~= sv);
        assert(byte_paths(self.pending@).skip(base.len() as int) =~= sv);
        assert(byte_paths(self.pending@).take(base.len() as int) =~= base);
        assert(byte_paths(children@) =~= children@.map_values(|v: Vec<u8>| v@));
        proof {
            sv.to_multiset_ensures();
            byte_paths(children@).to_multiset_ensures();
        }
        assert(descending(sv));
        assert(sv.to_multiset() == byte_paths(children@).to_multiset());
        assert(sv.len() == children@.len());
    }
}

} // verus!
