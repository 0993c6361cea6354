//! `seq`: its bounds, and the numbers from the first to the last, upward
//! or downward, one at a time.

use vstd::prelude::*;
use crate::text::{parse_i64, parse_signed};

verus! {

/// The number an argument gives, or 1 where it is no integer.
pub open spec fn number_or_one(s: Seq<char>) -> int {
    match parse_signed(s) {
        Some(v) => v,
        None => 1,
    }
}

/// `(START, END)`: `END` alone counts from 1; no other number of arguments
/// is accepted.
pub open spec fn seq_bounds_of(args: Seq<Seq<char>>) -> Option<(int, int)> {
    if args.len() == 1 {
        Some((1, number_or_one(args[0])))
    } else if args.len() == 2 {
        Some((number_or_one(args[0]), number_or_one(args[1])))
    } else {
        None
    }
}

fn number_or_one_exec(s: &str) -> (r: i64)
    ensures
        r == number_or_one(s@),
{
    match parse_i64(s) {
        Some(v) => v,
        None => 1,
    }
}

pub fn seq_bounds(args: &[String]) -> (r: Option<(i64, i64)>)
    ensures
        match seq_bounds_of(crate::applets::cat::strings_view(args@)) {
            Some((a, b)) => r matches Some(x) && x.0 == a && x.1 == b,
            None => r is None,
        },
{
    if args.len() == 1 {
        Some((1, number_or_one_exec(args[0].as_str())))
    } else if args.len() == 2 {
        Some((number_or_one_exec(args[0].as_str()), number_or_one_exec(args[1].as_str())))
    } else {
        None
    }
}

/// The numbers `seq` prints: `start` up to `end`, or down to it where
/// `end` is smaller.
pub open spec fn seq_values(start: int, end: int) -> Seq<int> {
    if start <= end {
        Seq::new((end - start + 1) as nat, |i: int| start + i)
    } else {
        Seq::new((start - end + 1) as nat, |i: int| start - i)
    }
}

/// The numbers still to come.
pub struct SeqCounter {
    next: i64,
    last: i64,
    ascending: bool,
    done: bool,
}

impl SeqCounter {
    pub closed spec fn remaining(&self) -> Seq<int> {
        if self.done {
            Seq::empty()
        } else {
            seq_values(self.next as int, self.last as int)
        }
    }

    pub closed spec fn wf(&self) -> bool {
        !self.done ==> (self.ascending ==> self.next <= self.last) && (!self.ascending ==> self.next >= self.last)
    }

    pub fn new(start: i64, end: i64) -> (r: Self)
        ensures
            r.wf(),
            r.remaining() == seq_values(start as int, end as int),
    {
        SeqCounter { next: start, last: end, ascending: start <= end, done: false }
    }

    /// The next number, or `None` after the last.
    pub fn next_value(&mut self) -> (r: Option<i64>)
        requires
            old(self).wf(),
        ensures
            final(self).wf(),
            old(self).remaining().len() == 0 ==> r is None && final(self).remaining().len() == 0,
            old(self).remaining().len() > 0 ==> (r matches Some(v) && v == old(self).remaining()[0]
                && final(self).remaining() == old(self).remaining().skip(1)),
    {
        if self.done {
            return None;
        }
        let v = self.next;
        let ghost before = self.remaining();
        if self.next == self.last {
            self.done = true;
            assert(before.len() == 1);
            assert(before.skip(1) =~= Seq::<int>::empty());
        } else if self.ascending {
            self.next = self.next + 1;
            assert(self.remaining() =~= before.skip(1));
        } else {
            self.next = self.next - 1;
            assert(self.remaining() =~= before.skip(1));
        }
        Some(v)
    }
}

} // verus!
