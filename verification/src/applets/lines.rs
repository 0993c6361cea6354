//! Line-oriented applets: line endings, `uniq` groups, `sort` order and the
//! lines `tail` keeps.

use vstd::prelude::*;
use crate::text::{chars_of, chars_eq, concat_str, decimal, decimal_string, pad_left, pad_left_string, push_char, string_of_range};

verus! {

broadcast use vstd::std_specs::vec::group_vec_axioms;

/// `line` without one final `\n`, then without one final `\r`.
pub open spec fn without_line_ending(line: Seq<char>) -> Seq<char> {
    let a = if line.len() > 0 && line.last() == '\n' { line.drop_last() } else { line };
    if a.len() > 0 && a.last() == '\r' {
        a.drop_last()
    } else {
        a
    }
}

pub fn strip_line_ending(line: &str) -> (r: String)
    ensures
        r@ == without_line_ending(line@),
{
    let cs = chars_of(line);
    let mut end = cs.len();
    if end > 0 && cs[end - 1] == '\n' {
        end = end - 1;
    }
    if end > 0 && cs[end - 1] == '\r' {
        end = end - 1;
    }
    let r = string_of_range(&cs, 0, end);
    assert(r@ =~= without_line_ending(line@));
    r
}

/// The line `uniq` prints for a group of `occurrences` equal lines: none
/// where `-d` asks for repeated lines and this one is not, or `-u` for
/// unique lines and this one is not; with `-c`, the count right-aligned in
/// four columns and a space before the line.
pub open spec fn group_output(line: Seq<char>, occurrences: nat, count: bool, repeated_only: bool, unique_only: bool) -> Option<Seq<char>> {
    if repeated_only && occurrences < 2 {
        None
    } else if unique_only && occurrences != 1 {
        None
    } else if count {
        Some(pad_left(decimal(occurrences), 4, ' ') + seq![' '] + line)
    } else {
        Some(line)
    }
}

pub fn print_group(line: &str, occurrences: usize, count: bool, repeated_only: bool, unique_only: bool) -> (r: Option<String>)
    ensures
        match group_output(line@, occurrences as nat, count, repeated_only, unique_only) {
            Some(t) => r matches Some(s) && s@ == t,
            None => r is None,
        },
{
    if repeated_only && occurrences < 2 {
        return None;
    }
    if unique_only && occurrences != 1 {
        return None;
    }
    if count {
        let n = decimal_string(occurrences as u64);
        let mut out = pad_left_string(n.as_str(), 4, ' ');
        push_char(&mut out, ' ');
        out.append(line);
        Some(out)
    } else {
        Some(String::from_str(line))
    }
}

/// Where `uniq` stands: the line of the current group and how many times
/// it has been seen (none yet where `seen_any` is false).
pub struct UniqState {
    pub previous: String,
    pub seen_any: bool,
    pub occurrences: usize,
}

impl UniqState {
    pub fn new() -> (r: Self)
        ensures
            !r.seen_any,
            r.occurrences == 0,
    {
        UniqState { previous: String::new(), seen_any: false, occurrences: 0 }
    }

    /// Takes the next line (without its ending): a line equal to the
    /// current group's joins it; another closes the group, whose output
    /// line is returned, and starts a new one.
    pub fn push_line(&mut self, line: &str, count: bool, repeated_only: bool, unique_only: bool) -> (r: Option<String>)
        requires
            old(self).occurrences < usize::MAX,
        ensures
            if old(self).seen_any && line@ == old(self).previous@ {
                &&& r is None
                &&& final(self).seen_any
                &&& final(self).previous@ == old(self).previous@
                &&& final(self).occurrences == old(self).occurrences + 1
            } else {
                &&& final(self).seen_any
                &&& final(self).previous@ == line@
                &&& final(self).occurrences == 1
                &&& if old(self).seen_any {
                    match group_output(old(self).previous@, old(self).occurrences as nat, count, repeated_only, unique_only) {
                        Some(t) => r matches Some(s) && s@ == t,
                        None => r is None,
                    }
                } else {
                    r is None
                }
            },
    {
        if self.seen_any && crate::text::str_eq(line, self.previous.as_str()) {
            self.occurrences = self.occurrences + 1;
            return None;
        }
        let out = if self.seen_any {
            print_group(self.previous.as_str(), self.occurrences, count, repeated_only, unique_only)
        } else {
            None
        };
        self.previous = String::from_str(line);
        self.seen_any = true;
        self.occurrences = 1;
        out
    }

    /// The output line of the last group, once the input has ended.
    pub fn finish(&self, count: bool, repeated_only: bool, unique_only: bool) -> (r: Option<String>)
        ensures
            if self.seen_any {
                match group_output(self.previous@, self.occurrences as nat, count, repeated_only, unique_only) {
                    Some(t) => r matches Some(s) && s@ == t,
                    None => r is None,
                }
            } else {
                r is None
            },
    {
        if self.seen_any {
            print_group(self.previous.as_str(), self.occurrences, count, repeated_only, unique_only)
        } else {
            None
        }
    }
}

/// Whether `a` comes strictly before `b` in character order.
pub open spec fn lex_less(a: Seq<char>, b: Seq<char>) -> bool
    decreases a.len(),
{
    if a.len() == 0 {
        b.len() > 0
    } else if b.len() == 0 {
        false
    } else if a[0] != b[0] {
        a[0] < b[0]
    } else {
        lex_less(a.skip(1), b.skip(1))
    }
}

pub open spec fn lex_le(a: Seq<char>, b: Seq<char>) -> bool {
    a == b || lex_less(a, b)
}

pub open spec fn views(v: Seq<String>) -> Seq<Seq<char>> {
    v.map_values(|s: String| s@)
}

pub open spec fn sorted_by_chars(s: Seq<Seq<char>>) -> bool {
    forall|i: int, j: int| 0 <= i < j < s.len() ==> lex_le(#[trigger] s[i], #[trigger] s[j])
}

proof fn lemma_lex_total(a: Seq<char>, b: Seq<char>)
    ensures
        lex_less(a, b) || a == b || lex_less(b, a),
        !(lex_less(a, b) && lex_less(b, a)),
        !(lex_less(a, b) && a == b),
    decreases a.len(),
{
    if a.len() > 0 && b.len() > 0 && a[0] == b[0] {
        lemma_lex_total(a.skip(1), b.skip(1));
        if a.skip(1) == b.skip(1) {
            assert(a =~= seq![a[0]] + a.skip(1));
            assert(b =~= seq![b[0]] + b.skip(1));
        }
    } else if a.len() == 0 && b.len() == 0 {
        assert(a =~= b);
    }
}

proof fn lemma_lex_trans(a: Seq<char>, b: Seq<char>, c: Seq<char>)
    requires
        lex_less(a, b),
        lex_less(b, c),
    ensures
        lex_less(a, c),
    decreases a.len(),
{
    if a.len() > 0 && b.len() > 0 && c.len() > 0 && a[0] == b[0] && b[0] == c[0] {
        lemma_lex_trans(a.skip(1), b.skip(1), c.skip(1));
    }
}

/// Whether `a` comes strictly before `b`.
fn chars_less(a: &Vec<char>, b: &Vec<char>) -> (r: bool)
    ensures
        r == lex_less(a@, b@),
{
    let mut i: usize = 0;
    assert(a@.skip(0) =~= a@);
    assert(b@.skip(0) =~= b@);
    while i < a.len() && i < b.len() && a[i] == b[i]
        invariant
            i <= a@.len(),
            i <= b@.len(),
            lex_less(a@, b@) == lex_less(a@.skip(i as int), b@.skip(i as int)),
        decreases a@.len() - i,
    {
        assert(a@.skip(i as int).skip(1) =~= a@.skip(i + 1));
        assert(b@.skip(i as int).skip(1) =~= b@.skip(i + 1));
        i = i + 1;
    }
    if i == a.len() {
        i < b.len()
    } else if i == b.len() {
        false
    } else {
        a[i] < b[i]
    }
}

proof fn lemma_lex_less_le(a: Seq<char>, b: Seq<char>, c: Seq<char>)
    requires
        lex_less(a, b),
        lex_le(b, c),
    ensures
        lex_less(a, c),
{
    if b != c {
        lemma_lex_trans(a, b, c);
    }
}

/// The lines in character order, each kept as often as it occurs.
pub fn sort_lines(lines: Vec<String>) -> (r: Vec<String>)
    ensures
        sorted_by_chars(views(r@)),
        views(r@).to_multiset() == views(lines@).to_multiset(),
{
    let mut out: Vec<String> = Vec::new();
    let mut keys: Vec<Vec<char>> = Vec::new();
    let mut i: usize = 0;
    proof {
        assert(views(out@) =~= Seq::<Seq<char>>::empty());
        assert(views(lines@).subrange(0, 0) =~= Seq::<Seq<char>>::empty());
    }
    while i < lines.len()
        invariant
            i <= lines@.len(),
            keys@.len() == out@.len(),
            forall|k: int| 0 <= k < keys@.len() ==> #[trigger] keys@[k]@ == out@[k]@,
            sorted_by_chars(views(out@)),
            views(out@).to_multiset() == views(lines@).subrange(0, i as int).to_multiset(),
        decreases lines@.len() - i,
    {
        let key = chars_of(lines[i].as_str());
        let mut j: usize = 0;
        while j < out.len() && !chars_less(&key, &keys[j])
            invariant
                j <= out@.len(),
                keys@.len() == out@.len(),
                forall|k: int| 0 <= k < keys@.len() ==> #[trigger] keys@[k]@ == out@[k]@,
                forall|k: int| 0 <= k < j ==> !lex_less(key@, #[trigger] out@[k]@),
            decreases out@.len() - j,
        {
            j = j + 1;
        }
        let ghost before = views(out@);
        proof {
            assert(j < out@.len() ==> lex_less(key@, before[j as int]));
        }
        let line = lines[i].clone();
        assert(line@ == key@);
        out.insert(j, line);
        keys.insert(j, key);
        proof {
            let after = views(out@);
            assert(after =~= before.insert(j as int, key@));
            before.insert_ensures(j as int, key@);
            assert forall|a: int, b: int| 0 <= a < b < after.len() implies lex_le(#[trigger] after[a], #[trigger] after[b]) by {
                if b < j {
                    assert(after[a] == before[a] && after[b] == before[b]);
                } else if b == j {
                    assert(after[a] == before[a]);
                    assert(!lex_less(key@, before[a]));
                    lemma_lex_total(key@, before[a]);
                } else if a == j {
                    assert(after[b] == before[b - 1]);
                    assert(lex_less(key@, before[j as int]));
                    if j < b - 1 {
                        assert(lex_le(before[j as int], before[b - 1]));
                    }
                    lemma_lex_less_le(key@, before[j as int], before[b - 1]);
                } else if a < j {
                    assert(after[a] == before[a] && after[b] == before[b - 1]);
                } else {
                    assert(after[a] == before[a - 1] && after[b] == before[b - 1]);
                }
            }
            assert(views(lines@).subrange(0, i + 1) =~= views(lines@).subrange(0, i as int).push(key@));
            vstd::seq_lib::to_multiset_insert(before, j as int, key@);
            vstd::seq_lib::to_multiset_build(views(lines@).subrange(0, i as int), key@);
        }
        i = i + 1;
    }
    assert(views(lines@).subrange(0, lines@.len() as int) =~= views(lines@));
    out
}

/// What `sort` prints: the lines in order, reversed with `-r`, and with
/// `-u` without a line equal to the one printed before it.
pub open spec fn sort_output_spec(sorted: Seq<Seq<char>>, reverse: bool, unique: bool) -> Seq<Seq<char>> {
    let ordered = if reverse { sorted.reverse() } else { sorted };
    if unique { dedup_adjacent(ordered) } else { ordered }
}

/// `s` without the elements equal to the one before them.
pub open spec fn dedup_adjacent(s: Seq<Seq<char>>) -> Seq<Seq<char>>
    decreases s.len(),
{
    if s.len() == 0 {
        Seq::empty()
    } else if s.len() >= 2 && s[s.len() - 1] == s[s.len() - 2] {
        dedup_adjacent(s.drop_last())
    } else {
        dedup_adjacent(s.drop_last()).push(s.last())
    }
}

/// The lines `sort` prints for `lines`.
pub fn sort_output(lines: Vec<String>, reverse: bool, unique: bool) -> (r: Vec<String>)
    ensures
        exists|sorted: Seq<Seq<char>>|
            sorted_by_chars(sorted) && sorted.to_multiset() == views(lines@).to_multiset() && views(r@)
                == sort_output_spec(sorted, reverse, unique),
{
    let sorted = sort_lines(lines);
    let ghost sv = views(sorted@);
    let n = sorted.len();
    let mut ordered: Vec<String> = Vec::new();
    let mut i: usize = 0;
    while i < n
        invariant
            n == sorted@.len(),
            sv == views(sorted@),
            i <= n,
            views(ordered@) == (if reverse { sv.reverse().subrange(0, i as int) } else { sv.subrange(0, i as int) }),
        decreases n - i,
    {
        let k = if reverse {
            n - 1 - i
        } else {
            i
        };
        let ghost before = ordered@;
        ordered.push(sorted[k].clone());
        assert(views(ordered@) =~= views(before).push(sv[k as int]));
        proof {
            if reverse {
                assert(sv.reverse().subrange(0, i + 1) =~= sv.reverse().subrange(0, i as int).push(sv[k as int]));
            } else {
                assert(sv.subrange(0, i + 1) =~= sv.subrange(0, i as int).push(sv[k as int]));
            }
        }
        i = i + 1;
    }
    let ghost ov = if reverse { sv.reverse() } else { sv };
    assert(views(ordered@) =~= ov);
    if !unique {
        return ordered;
    }
    let mut out: Vec<String> = Vec::new();
    let mut keys: Vec<Vec<char>> = Vec::new();
    let mut j: usize = 0;
    while j < ordered.len()
        invariant
            j <= ordered@.len(),
            views(ordered@) == ov,
            views(out@) == dedup_adjacent(ov.subrange(0, j as int)),
            j > 0 ==> keys@.len() == 1 && keys@[0]@ == ov[j - 1],
        decreases ordered@.len() - j,
    {
        let key = chars_of(ordered[j].as_str());
        assert(key@ == ov[j as int]);
        let same = j > 0 && chars_eq(&key, &keys[0]);
        let ghost pre = ov.subrange(0, j as int);
        let ghost next = ov.subrange(0, j + 1);
        assert(next.drop_last() =~= pre);
        if !same {
            let ghost before = out@;
            out.push(ordered[j].clone());
            assert(views(out@) =~= views(before).push(ov[j as int]));
        }
        keys = Vec::new();
        keys.push(key);
        j = j + 1;
    }
    assert(ov.subrange(0, ov.len() as int) =~= ov);
    out
}

/// Name and value pairs by their views.
pub open spec fn pair_views(v: Seq<(String, String)>) -> Seq<(Seq<char>, Seq<char>)> {
    v.map_values(|p: (String, String)| (p.0@, p.1@))
}

/// The pairs in character order of their names.
pub open spec fn sorted_by_name(s: Seq<(Seq<char>, Seq<char>)>) -> bool {
    forall|i: int, j: int| 0 <= i < j < s.len() ==> lex_le((#[trigger] s[i]).0, (#[trigger] s[j]).0)
}

/// The variables that `env` lists, ordered by name in character order
/// (those of one name keep the order they came in).
pub fn sort_by_name(vars: &Vec<(String, String)>) -> (r: Vec<(String, String)>)
    ensures
        sorted_by_name(pair_views(r@)),
        pair_views(r@).to_multiset() == pair_views(vars@).to_multiset(),
{
    let mut out: Vec<(String, String)> = Vec::new();
    let mut keys: Vec<Vec<char>> = Vec::new();
    let mut i: usize = 0;
    proof {
        assert(pair_views(out@) =~= Seq::<(Seq<char>, Seq<char>)>::empty());
        assert(pair_views(vars@).subrange(0, 0) =~= Seq::<(Seq<char>, Seq<char>)>::empty());
    }
    while i < vars.len()
        invariant
            i <= vars@.len(),
            keys@.len() == out@.len(),
            forall|k: int| 0 <= k < keys@.len() ==> #[trigger] keys@[k]@ == out@[k].0@,
            sorted_by_name(pair_views(out@)),
            pair_views(out@).to_multiset() == pair_views(vars@).subrange(0, i as int).to_multiset(),
        decreases vars@.len() - i,
    {
        let key = chars_of(vars[i].0.as_str());
        let mut j: usize = 0;
        while j < out.len() && !chars_less(&key, &keys[j])
            invariant
                j <= out@.len(),
                keys@.len() == out@.len(),
                forall|k: int| 0 <= k < keys@.len() ==> #[trigger] keys@[k]@ == out@[k].0@,
                forall|k: int| 0 <= k < j ==> !lex_less(key@, (#[trigger] out@[k]).0@),
            decreases out@.len() - j,
        {
            j = j + 1;
        }
        let ghost before = pair_views(out@);
        let name = vars[i].0.clone();
        let value = vars[i].1.clone();
        let ghost item = (name@, value@);
        proof {
            assert(j < out@.len() ==> lex_less(key@, before[j as int].0));
            assert(item == pair_views(vars@)[i as int]);
            assert(name@ == key@);
        }
        out.insert(j, (name, value));
        keys.insert(j, key);
        proof {
            let after = pair_views(out@);
            assert(after =~= before.insert(j as int, item));
            before.insert_ensures(j as int, item);
            assert forall|a: int, b: int| 0 <= a < b < after.len() implies lex_le(
                (#[trigger] after[a]).0,
                (#[trigger] after[b]).0,
            ) by {
                if b < j {
                    assert(after[a] == before[a] && after[b] == before[b]);
                } else if b == j {
                    assert(after[a] == before[a]);
                    assert(!lex_less(key@, before[a].0));
                    lemma_lex_total(key@, before[a].0);
                } else if a == j {
                    assert(after[b] == before[b - 1]);
                    assert(lex_less(key@, before[j as int].0));
                    if j < b - 1 {
                        assert(lex_le(before[j as int].0, before[b - 1].0));
                    }
                    lemma_lex_less_le(key@, before[j as int].0, before[b - 1].0);
                } else if a < j {
                    assert(after[a] == before[a] && after[b] == before[b - 1]);
                } else {
                    assert(after[a] == before[a - 1] && after[b] == before[b - 1]);
                }
            }
            assert(pair_views(vars@).subrange(0, i + 1) =~= pair_views(vars@).subrange(0, i as int).push(item));
            vstd::seq_lib::to_multiset_insert(before, j as int, item);
            vstd::seq_lib::to_multiset_build(pair_views(vars@).subrange(0, i as int), item);
        }
        i = i + 1;
    }
    assert(pair_views(vars@).subrange(0, vars@.len() as int) =~= pair_views(vars@));
    out
}

} // verus!
