//! `cut`: selections of characters or fields.

use vstd::prelude::*;
use crate::text::{chars_of, push_char, split_chars, split_on, parse_unsigned, parse_usize, string_of_range};
use crate::args::{first_char_index, first_index};
use crate::utf8::{Utf8Chars, decode_from, decode_step};

verus! {

broadcast use vstd::std_specs::vec::group_vec_axioms;

/// The numbered items (from 1) that `cut` keeps: from `start` to `end`,
/// or to the last where `end` is `None`.
#[derive(Debug, Clone, Copy, PartialEq, Eq, Structural)]
pub struct Selection {
    pub start: usize,
    pub end: Option<usize>,
}

impl Selection {
    pub open spec fn keeps(&self, index: int) -> bool {
        index >= self.start && match self.end {
            Some(e) => index <= e,
            None => true,
        }
    }
}

pub open spec fn usize_of(s: Seq<char>) -> Option<usize> {
    match parse_unsigned(s, usize::MAX as nat) {
        Some(v) => Some(v as usize),
        None => None,
    }
}

/// What `cut` reads from a list `spec`: `N`, `N-M`, `N-` or `-M`.
pub open spec fn selection_of(spec: Seq<char>) -> Option<Selection> {
    match first_index(spec, '-', 0) {
        Some(d) => {
            let start = spec.subrange(0, d);
            let end = spec.subrange(d + 1, spec.len() as int);
            let s = if start.len() == 0 { Some(1usize) } else { usize_of(start) };
            let e = if end.len() == 0 { Some(None) } else {
                match usize_of(end) {
                    Some(v) => Some(Some(v)),
                    None => None,
                }
            };
            match (s, e) {
                (Some(a), Some(b)) => Some(Selection { start: a, end: b }),
                _ => None,
            }
        },
        None => match usize_of(spec) {
            Some(i) => Some(Selection { start: i, end: Some(i) }),
            None => None,
        },
    }
}

pub fn parse_selection(spec: &str) -> (r: Option<Selection>)
    ensures
        r == selection_of(spec@),
{
    let cs = chars_of(spec);
    let n = cs.len();
    match first_char_index(&cs, '-', 0) {
        Some(d) => {
            let start_text = string_of_range(&cs, 0, d);
            let end_text = string_of_range(&cs, d + 1, n);
            let start = if d == 0 {
                1
            } else {
                match parse_usize(start_text.as_str()) {
                    Some(v) => v,
                    None => {
                        return None;
                    },
                }
            };
            let end = if d + 1 == n {
                None
            } else {
                match parse_usize(end_text.as_str()) {
                    Some(v) => Some(v),
                    None => {
                        return None;
                    },
                }
            };
            Some(Selection { start, end })
        },
        None => match parse_usize(spec) {
            Some(i) => Some(Selection { start: i, end: Some(i) }),
            None => None,
        },
    }
}

/// The items of `items` (numbered from 1) that `sel` keeps, in order.
pub open spec fn kept<T>(items: Seq<T>, sel: Selection, n: int) -> Seq<T>
    decreases n,
{
    if n <= 0 || n > items.len() {
        Seq::empty()
    } else if sel.keeps(n) {
        kept(items, sel, n - 1).push(items[n - 1])
    } else {
        kept(items, sel, n - 1)
    }
}

proof fn lemma_first_dash_at_end(a: Seq<char>, i: int)
    requires
        0 <= i <= a.len(),
        !a.contains('-'),
    ensures
        first_index(a + seq!['-'], '-', i) == Some(a.len() as int),
    decreases a.len() - i,
{
    let s = a + seq!['-'];
    if i < a.len() {
        assert(s[i] == a[i]);
        assert(a[i] != '-');
        lemma_first_dash_at_end(a, i + 1);
    } else {
        assert(s[i] == '-');
    }
}

/// A list `N-` (or `-` alone) keeps every item from `N` (from 1) on, to the
/// last: it has no end, and it keeps each item numbered `N` or more.
pub proof fn lemma_open_ended_selection(a: Seq<char>)
    requires
        !a.contains('-'),
        a.len() == 0 || usize_of(a) is Some,
    ensures
        selection_of(a + seq!['-']) is Some,
        selection_of(a + seq!['-'])->Some_0.end is None,
        selection_of(a + seq!['-'])->Some_0.start == (if a.len() == 0 { 1usize } else { usize_of(a)->Some_0 }),
        forall|i: int| i >= selection_of(a + seq!['-'])->Some_0.start ==> #[trigger] selection_of(
            a + seq!['-'],
        )->Some_0.keeps(i),
{
    let s = a + seq!['-'];
    lemma_first_dash_at_end(a, 0);
    assert(s.subrange(0, a.len() as int) =~= a);
    assert(s.subrange(a.len() as int + 1, s.len() as int) =~= Seq::<char>::empty());
}

proof fn lemma_no_dash(a: Seq<char>, i: int)
    requires
        0 <= i,
        !a.contains('-'),
    ensures
        first_index(a, '-', i) is None,
    decreases a.len() - i,
{
    if i < a.len() {
        assert(a[i] != '-');
        lemma_no_dash(a, i + 1);
    }
}

/// A list `N` keeps item `N` alone, and a list `-M` keeps the items from
/// the first to `M`.
pub proof fn lemma_closed_selections(a: Seq<char>, m: Seq<char>)
    requires
        !a.contains('-'),
        !m.contains('-'),
        usize_of(a) is Some,
        usize_of(m) is Some,
    ensures
        selection_of(a) == Some(Selection { start: usize_of(a)->Some_0, end: Some(usize_of(a)->Some_0) }),
        forall|i: int| #[trigger] selection_of(a)->Some_0.keeps(i) <==> i == usize_of(a)->Some_0,
        selection_of(seq!['-'] + m) == Some(Selection { start: 1, end: Some(usize_of(m)->Some_0) }),
        forall|i: int| #[trigger] selection_of(seq!['-'] + m)->Some_0.keeps(i) <==> 1 <= i <= usize_of(m)->Some_0,
{
    lemma_no_dash(a, 0);
    let s = seq!['-'] + m;
    assert(s[0] == '-');
    assert(first_index(s, '-', 0) == Some(0int));
    assert(s.subrange(0, 0) =~= Seq::<char>::empty());
    assert(s.subrange(1, s.len() as int) =~= m);
    if m.len() == 0 {
        assert(parse_unsigned(m, usize::MAX as nat) is None);
    }
}

/// What a selection with no end keeps of `items`: nothing before item
/// `start`, then every item up to the `n`-th.
pub proof fn lemma_kept_open_ended<T>(items: Seq<T>, sel: Selection, n: int)
    requires
        sel.end is None,
        sel.start >= 1,
        0 <= n <= items.len(),
    ensures
        kept(items, sel, n) == (if n < sel.start { Seq::<T>::empty() } else { items.subrange(sel.start - 1, n) }),
    decreases n,
{
    if n > 0 {
        lemma_kept_open_ended(items, sel, n - 1);
        if n >= sel.start {
            if n - 1 < sel.start {
                assert(items.subrange(sel.start - 1, n) =~= seq![items[n - 1]]);
                assert(Seq::<T>::empty().push(items[n - 1]) =~= seq![items[n - 1]]);
            } else {
                assert(items.subrange(sel.start - 1, n - 1).push(items[n - 1]) =~= items.subrange(sel.start - 1, n));
            }
        }
    }
}

/// The characters that `cut -c` keeps of `input`, decoding its UTF-8 bytes.
pub fn cut_characters(input: &str, selection: &Selection) -> (r: String)
    requires
        vstd::utf8::encode_utf8(input@).len() < usize::MAX,
    ensures
        ({
            let cs = decode_from(vstd::utf8::encode_utf8(input@), 0);
            r@ == kept(cs, *selection, cs.len() as int)
        }),
{
    let bytes = input.as_bytes();
    let ghost b = bytes@;
    let mut chars = Utf8Chars::new(bytes);
    let mut out = String::new();
    let mut index: usize = 1;
    let ghost all = decode_from(b, 0);
    loop
        invariant
            chars.wf(),
            chars.spec_bytes() == b,
            b == vstd::utf8::encode_utf8(input@),
            all == decode_from(b, 0),
            0 <= chars.spec_pos() <= b.len(),
            index >= 1,
            all == decode_from(b, 0).subrange(0, index - 1) + decode_from(b, chars.spec_pos()),
            out@ == kept(all, *selection, index - 1),
            index - 1 <= all.len(),
            b.len() < usize::MAX,
        decreases b.len() - chars.spec_pos(),
    {
        let ghost pos = chars.spec_pos();
        match chars.next_char() {
            Some(ch) => {
                proof {
                    assert(decode_from(b, pos) == seq![ch] + decode_from(b, chars.spec_pos()));
                    assert(all[index - 1] == ch);
                }
                if index >= selection.start && match selection.end {
                    Some(e) => index <= e,
                    None => true,
                } {
                    push_char(&mut out, ch);
                }
                proof {
                    lemma_decode_len(b, 0);
                    assert(index <= all.len());
                }
                index = index + 1;
                proof {
                    assert(all == decode_from(b, 0).subrange(0, index - 1) + decode_from(b, chars.spec_pos()));
                }
            },
            None => {
                assert(decode_from(b, pos) =~= Seq::<char>::empty());
                assert(all.len() == index - 1);
                return out;
            },
        }
    }
}

proof fn lemma_decode_len(b: Seq<u8>, pos: int)
    requires
        0 <= pos,
    ensures
        decode_from(b, pos).len() <= (if pos <= b.len() { b.len() - pos } else { 0 }),
    decreases b.len() - pos,
{
    if pos < b.len() {
        let (c, next) = decode_step(b, pos);
        if next > pos {
            lemma_decode_len(b, next);
        }
    }
}

/// The fields of `input` between `delimiter`s that `cut -f` keeps, joined
/// again with `delimiter`.
pub open spec fn cut_fields_text(input: Seq<char>, sel: Selection, delimiter: char) -> Seq<char> {
    let fields = split_chars(input, delimiter);
    join_with(kept(fields, sel, fields.len() as int), delimiter)
}

/// The pieces joined with `sep` between them.
pub open spec fn join_with(parts: Seq<Seq<char>>, sep: char) -> Seq<char>
    decreases parts.len(),
{
    if parts.len() == 0 {
        Seq::empty()
    } else if parts.len() == 1 {
        parts[0]
    } else {
        join_with(parts.drop_last(), sep) + seq![sep] + parts.last()
    }
}

pub fn cut_fields(input: &str, selection: &Selection, delimiter: char) -> (r: String)
    ensures
        r@ == cut_fields_text(input@, *selection, delimiter),
{
    let cs = chars_of(input);
    let fields = split_on(cs.as_slice(), delimiter);
    let ghost fs = split_chars(input@, delimiter);
    let mut out = String::new();
    let mut any = false;
    let mut i: usize = 0;
    while i < fields.len()
        invariant
            fields@.len() == fs.len(),
            fs == split_chars(input@, delimiter),
            forall|k: int| 0 <= k < fields@.len() ==> #[trigger] fields@[k]@ == fs[k],
            i <= fields@.len(),
            out@ == join_with(kept(fs, *selection, i as int), delimiter),
            any == (kept(fs, *selection, i as int).len() > 0),
        decreases fields@.len() - i,
    {
        let index = i + 1;
        let ghost before = kept(fs, *selection, i as int);
        if index >= selection.start && match selection.end {
            Some(e) => index <= e,
            None => true,
        } {
            if any {
                push_char(&mut out, delimiter);
            }
            let piece = string_of_range(&fields[i], 0, fields[i].len());
            assert(fields@[i as int]@.subrange(0, fields@[i as int]@.len() as int) =~= fields@[i as int]@);
            out.append(piece.as_str());
            proof {
                let now = kept(fs, *selection, i + 1);
                assert(now == before.push(fs[i as int]));
                assert(now.drop_last() =~= before);
                if before.len() == 0 {
                    assert(out@ =~= join_with(now, delimiter));
                } else {
                    assert(out@ =~= join_with(now, delimiter));
                }
            }
            any = true;
        }
        i = i + 1;
    }
    out
}

} // verus!
