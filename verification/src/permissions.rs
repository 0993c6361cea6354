//! Unix permission modes: octal and symbolic (`u+x,go-w`) parsing, and
//! formatting as octal digits or as the nine-letter `rwxr-xr-x` form.

use vstd::prelude::*;
use crate::error::{ProteusError, ProteusResult};
use crate::text::{chars_of, concat_str, split_chars, split_on, string_of};

verus! {

pub const USER_READ: u32 = 0o400;
pub const USER_WRITE: u32 = 0o200;
pub const USER_EXECUTE: u32 = 0o100;
pub const GROUP_READ: u32 = 0o040;
pub const GROUP_WRITE: u32 = 0o020;
pub const GROUP_EXECUTE: u32 = 0o010;
pub const OTHER_READ: u32 = 0o004;
pub const OTHER_WRITE: u32 = 0o002;
pub const OTHER_EXECUTE: u32 = 0o001;
pub const SET_UID: u32 = 0o4000;
pub const SET_GID: u32 = 0o2000;
pub const STICKY: u32 = 0o1000;
pub const ALL_PERMISSIONS: u32 = 0o7777;

#[derive(Debug, Clone, Copy, PartialEq, Eq, Structural)]
pub enum PermissionTarget {
    User,
    Group,
    Other,
    All,
}

#[derive(Debug, Clone, Copy, PartialEq, Eq, Structural)]
pub enum PermissionOp {
    Add,
    Remove,
    Assign,
}

/// A permission mode; only the twelve low bits are meaningful.
#[derive(Debug, Clone, Copy, PartialEq, Eq, Structural)]
pub struct PermissionMask {
    pub mode: u32,
}

impl Default for PermissionMask {
    fn default() -> (r: Self)
        ensures
            r.mode == 0,
    {
        PermissionMask { mode: 0 }
    }
}

/// One parsed clause of a symbolic mode, such as `go-w`.
/// `targets` holds bit 1 for user, 2 for group and 4 for other.
#[derive(Debug, Clone, Copy, PartialEq, Eq, Structural)]
pub struct SymbolicClause {
    pub targets: u8,
    pub op: PermissionOp,
    pub perms: u32,
    pub conditional_execute: bool,
}

// ---------------------------------------------------------------------------
// Specification
// ---------------------------------------------------------------------------

pub open spec fn is_octal_digit(c: char) -> bool {
    '0' <= c && c <= '7'
}

pub open spec fn all_octal(s: Seq<char>) -> bool {
    forall|i: int| 0 <= i < s.len() ==> #[trigger] is_octal_digit(s[i])
}

pub open spec fn digit_value(c: char) -> nat {
    (c as int - '0' as int) as nat
}

/// The number that a string of octal digits denotes.
pub open spec fn octal_value(s: Seq<char>) -> nat
    decreases s.len(),
{
    if s.len() == 0 {
        0
    } else {
        octal_value(s.drop_last()) * 8 + digit_value(s.last())
    }
}

pub open spec fn pow8(n: nat) -> nat
    decreases n,
{
    if n == 0 {
        1
    } else {
        8 * pow8((n - 1) as nat)
    }
}

/// What `parse_octal` accepts and the mode it yields.
pub open spec fn spec_parse_octal(s: Seq<char>) -> Result<u32, Seq<char>> {
    if 0 < s.len() <= 4 && all_octal(s) {
        Ok(octal_value(s) as u32)
    } else {
        Err("invalid octal mode: "@ + s)
    }
}

pub open spec fn is_who(c: char) -> bool {
    c == 'u' || c == 'g' || c == 'o' || c == 'a'
}

pub open spec fn who_bits(c: char) -> u8 {
    if c == 'u' {
        1
    } else if c == 'g' {
        2
    } else if c == 'o' {
        4
    } else {
        7
    }
}

/// The index of the first character at or after `i` that is not one of `ugoa`.
pub open spec fn who_end(s: Seq<char>, i: int) -> int
    decreases s.len() - i,
{
    if 0 <= i < s.len() && is_who(s[i]) {
        who_end(s, i + 1)
    } else {
        i
    }
}

/// The target bits named by the first `n` characters.
pub open spec fn who_targets(s: Seq<char>, n: int) -> u8
    decreases n,
{
    if n <= 0 {
        0
    } else {
        who_targets(s, n - 1) | who_bits(s[n - 1])
    }
}

pub open spec fn is_perm_char(c: char) -> bool {
    c == 'r' || c == 'w' || c == 'x' || c == 'X' || c == 's' || c == 't'
}

/// The mode bits one permission letter contributes for the given targets.
pub open spec fn perm_bits(targets: u8, c: char) -> u32 {
    let u = targets & 1 != 0;
    let g = targets & 2 != 0;
    let o = targets & 4 != 0;
    if c == 'r' {
        (if u { USER_READ } else { 0 }) | (if g { GROUP_READ } else { 0 }) | (if o { OTHER_READ } else { 0 })
    } else if c == 'w' {
        (if u { USER_WRITE } else { 0 }) | (if g { GROUP_WRITE } else { 0 }) | (if o { OTHER_WRITE } else { 0 })
    } else if c == 'x' {
        (if u { USER_EXECUTE } else { 0 }) | (if g { GROUP_EXECUTE } else { 0 }) | (if o { OTHER_EXECUTE } else { 0 })
    } else if c == 's' {
        (if u { SET_UID } else { 0 }) | (if g { SET_GID } else { 0 })
    } else if c == 't' {
        STICKY
    } else {
        0
    }
}

/// The bits named by the first `n` permission letters.
pub open spec fn perms_upto(targets: u8, s: Seq<char>, n: int) -> u32
    decreases n,
{
    if n <= 0 {
        0
    } else {
        perms_upto(targets, s, n - 1) | perm_bits(targets, s[n - 1])
    }
}

/// What `parse_clause` yields for one clause, or the message of its error.
pub open spec fn spec_parse_clause(s: Seq<char>) -> Result<SymbolicClause, Seq<char>> {
    let k = who_end(s, 0);
    let named = who_targets(s, k);
    let targets: u8 = if named == 0 { 7 } else { named };
    let perms = s.subrange(k + 1, s.len() as int);
    if s.len() == 0 {
        Err("empty symbolic mode clause"@)
    } else if k >= s.len() {
        Err("missing symbolic operator in mode clause: "@ + s)
    } else if s[k] != '+' && s[k] != '-' && s[k] != '=' {
        Err("invalid symbolic operator in mode clause: "@ + s)
    } else if exists|j: int| 0 <= j < perms.len() && !is_perm_char(#[trigger] perms[j]) {
        Err("invalid symbolic permission in mode clause: "@ + s)
    } else {
        Ok(
            SymbolicClause {
                targets,
                op: if s[k] == '+' {
                    PermissionOp::Add
                } else if s[k] == '-' {
                    PermissionOp::Remove
                } else {
                    PermissionOp::Assign
                },
                perms: perms_upto(targets, perms, perms.len() as int),
                conditional_execute: exists|j: int| 0 <= j < perms.len() && #[trigger] perms[j] == 'X',
            },
        )
    }
}

/// The execute bits of the given targets.
pub open spec fn target_execute_bits(targets: u8) -> u32 {
    (if targets & 1 != 0 { USER_EXECUTE } else { 0 }) | (if targets & 2 != 0 { GROUP_EXECUTE } else { 0 })
        | (if targets & 4 != 0 { OTHER_EXECUTE } else { 0 })
}

/// All bits (read, write, execute and the special bit) of the given targets.
pub open spec fn spec_clear_mask(targets: u8) -> u32 {
    (if targets & 1 != 0 { USER_READ | USER_WRITE | USER_EXECUTE | SET_UID } else { 0 })
        | (if targets & 2 != 0 { GROUP_READ | GROUP_WRITE | GROUP_EXECUTE | SET_GID } else { 0 })
        | (if targets & 4 != 0 { OTHER_READ | OTHER_WRITE | OTHER_EXECUTE | STICKY } else { 0 })
}

pub open spec fn spec_has_any_execute_bit(mode: u32) -> bool {
    mode & (USER_EXECUTE | GROUP_EXECUTE | OTHER_EXECUTE) != 0
}

/// The mode after applying one clause: `X` adds execute bits only when the
/// current mode has an execute bit; `=` first clears every bit of the targets.
pub open spec fn spec_apply_clause(current: u32, c: SymbolicClause) -> u32 {
    let mode = current & ALL_PERMISSIONS;
    let perms = if c.conditional_execute && spec_has_any_execute_bit(current) {
        c.perms | target_execute_bits(c.targets)
    } else {
        c.perms
    };
    match c.op {
        PermissionOp::Add => (mode | perms) & ALL_PERMISSIONS,
        PermissionOp::Remove => (mode & !perms) & ALL_PERMISSIONS,
        PermissionOp::Assign => ((mode & !spec_clear_mask(c.targets)) | perms) & ALL_PERMISSIONS,
    }
}

/// Applies the clauses left to right; the first malformed clause is the error.
pub open spec fn spec_apply_clauses(clauses: Seq<Seq<char>>, mode: u32) -> Result<u32, Seq<char>>
    decreases clauses.len(),
{
    if clauses.len() == 0 {
        Ok(mode)
    } else {
        match spec_parse_clause(clauses[0]) {
            Err(m) => Err(m),
            Ok(c) => spec_apply_clauses(clauses.drop_first(), spec_apply_clause(mode, c)),
        }
    }
}

/// What `parse_symbolic` yields: the clauses are separated by commas.
pub open spec fn spec_parse_symbolic(s: Seq<char>, current: u32) -> Result<u32, Seq<char>> {
    match spec_apply_clauses(split_chars(s, ','), current & ALL_PERMISSIONS) {
        Ok(m) => Ok(m & ALL_PERMISSIONS),
        Err(e) => Err(e),
    }
}

/// What `parse` yields: octal when every character is an octal digit
/// (the empty string included), symbolic otherwise.
pub open spec fn spec_parse_mode(s: Seq<char>, current: u32) -> Result<u32, Seq<char>> {
    if all_octal(s) {
        spec_parse_octal(s)
    } else {
        spec_parse_symbolic(s, current)
    }
}

pub open spec fn bit_char(mode: u32, bit: u32, c: char) -> char {
    if mode & bit != 0 {
        c
    } else {
        '-'
    }
}

/// The letter in an execute position: `x`, or `s`/`t` when the special bit is
/// also set, or `S`/`T` when only the special bit is set.
pub open spec fn exec_char(mode: u32, exec: u32, special: u32, lower: char, upper: char) -> char {
    if mode & exec != 0 {
        if mode & special != 0 {
            lower
        } else {
            'x'
        }
    } else if mode & special != 0 {
        upper
    } else {
        '-'
    }
}

/// The nine-letter form of a mode, as `ls -l` shows it.
pub open spec fn symbolic_view(m: u32) -> Seq<char> {
    let mode = m & ALL_PERMISSIONS;
    seq![
        bit_char(mode, USER_READ, 'r'),
        bit_char(mode, USER_WRITE, 'w'),
        exec_char(mode, USER_EXECUTE, SET_UID, 's', 'S'),
        bit_char(mode, GROUP_READ, 'r'),
        bit_char(mode, GROUP_WRITE, 'w'),
        exec_char(mode, GROUP_EXECUTE, SET_GID, 's', 'S'),
        bit_char(mode, OTHER_READ, 'r'),
        bit_char(mode, OTHER_WRITE, 'w'),
        exec_char(mode, OTHER_EXECUTE, STICKY, 't', 'T'),
    ]
}

pub open spec fn octal_char(d: u32) -> char {
    (d + '0' as u32) as char
}

/// The four octal digits of a mode.
pub open spec fn octal_view(m: u32) -> Seq<char> {
    let mode = m & ALL_PERMISSIONS;
    seq![
        octal_char((mode >> 9) & 7),
        octal_char((mode >> 6) & 7),
        octal_char((mode >> 3) & 7),
        octal_char(mode & 7),
    ]
}

// ---------------------------------------------------------------------------
// Implementation
// ---------------------------------------------------------------------------

proof fn lemma_pow8_small()
    ensures
        pow8(0) == 1,
        pow8(1) == 8,
        pow8(2) == 64,
        pow8(3) == 512,
        pow8(4) == 4096,
{
    reveal_with_fuel(pow8, 5);
}

proof fn lemma_octal_value_bound(s: Seq<char>)
    requires
        all_octal(s),
    ensures
        octal_value(s) < pow8(s.len()),
    decreases s.len(),
{
    if s.len() > 0 {
        assert(all_octal(s.drop_last())) by {
            assert forall|i: int| 0 <= i < s.drop_last().len() implies #[trigger] is_octal_digit(
                s.drop_last()[i],
            ) by {
                assert(is_octal_digit(s[i]));
            }
        }
        lemma_octal_value_bound(s.drop_last());
        assert(is_octal_digit(s[s.len() - 1]));
    }
}

impl PermissionMask {
    /// The mask holding the twelve permission bits of `mode`.
    pub fn from_mode(mode: u32) -> (r: Self)
        ensures
            r.mode == mode & ALL_PERMISSIONS,
    {
        PermissionMask { mode: mode & ALL_PERMISSIONS }
    }

    /// Parses one to four octal digits.
    pub fn parse_octal(input: &str) -> (r: ProteusResult<Self>)
        ensures
            match spec_parse_octal(input@) {
                Ok(m) => r matches Ok(p) && p.mode == m,
                Err(msg) => r matches Err(e) && e.is_invalid_argument(msg),
            },
    {
        let s = chars_of(input);
        let n = s.len();
        if n == 0 || n > 4 {
            return Err(ProteusError::InvalidArgument(concat_str("invalid octal mode: ", input)));
        }
        let mut v: u32 = 0;
        let mut i: usize = 0;
        while i < n
            invariant
                n == s@.len(),
                s@ == input@,
                0 < n <= 4,
                i <= n,
                all_octal(s@.subrange(0, i as int)),
                v == octal_value(s@.subrange(0, i as int)),
                v < pow8(i as nat),
            decreases n - i,
        {
            let c = s[i];
            if !('0' <= c && c <= '7') {
                assert(!all_octal(input@)) by {
                    assert(!is_octal_digit(s@[i as int]));
                }
                return Err(ProteusError::InvalidArgument(concat_str("invalid octal mode: ", input)));
            }
            let ghost pre = s@.subrange(0, i as int);
            let ghost next = s@.subrange(0, i + 1);
            assert(next.drop_last() =~= pre);
            assert(all_octal(next)) by {
                assert forall|j: int| 0 <= j < next.len() implies #[trigger] is_octal_digit(next[j]) by {
                    if j < i {
                        assert(is_octal_digit(pre[j]));
                    }
                }
            }
            assert(pow8((i + 1) as nat) == 8 * pow8(i as nat));
            proof { lemma_pow8_small(); }
            assert(pow8(i as nat) <= 512);
            v = v * 8 + (c as u32 - '0' as u32);
            i = i + 1;
        }
        assert(s@.subrange(0, n as int) =~= s@);
        proof { lemma_pow8_small(); }
        assert(pow8(n as nat) <= 4096);
        assert(v & ALL_PERMISSIONS == v) by (bit_vector)
            requires
                v < 4096,
        ;
        Ok(Self::from_mode(v))
    }

    /// Applies a comma-separated list of symbolic clauses to `current_mode`.
    pub fn parse_symbolic(input: &str, current_mode: u32) -> (r: ProteusResult<Self>)
        ensures
            match spec_parse_symbolic(input@, current_mode) {
                Ok(m) => r matches Ok(p) && p.mode == m,
                Err(msg) => r matches Err(e) && e.is_invalid_argument(msg),
            },
    {
        let s = chars_of(input);
        let pieces = split_on(&s, ',');
        let ghost clauses = split_chars(input@, ',');
        let mut mode = current_mode & ALL_PERMISSIONS;
        let mut i: usize = 0;
        assert(clauses.subrange(0, clauses.len() as int) =~= clauses);
        while i < pieces.len()
            invariant
                clauses == split_chars(input@, ','),
                pieces@.len() == clauses.len(),
                forall|j: int| 0 <= j < pieces@.len() ==> #[trigger] pieces@[j]@ == clauses[j],
                i <= pieces@.len(),
                spec_apply_clauses(clauses, current_mode & ALL_PERMISSIONS) == spec_apply_clauses(
                    clauses.subrange(i as int, clauses.len() as int),
                    mode,
                ),
            decreases pieces@.len() - i,
        {
            let ghost rest = clauses.subrange(i as int, clauses.len() as int);
            assert(rest[0] == clauses[i as int]);
            assert(rest.drop_first() =~= clauses.subrange(i + 1, clauses.len() as int));
            assert(pieces@[i as int]@ == clauses[i as int]);
            match parse_clause(&pieces[i]) {
                Err(e) => {
                    return Err(e);
                },
                Ok(clause) => {
                    mode = apply_clause(mode, clause);
                },
            }
            i = i + 1;
        }
        assert(clauses.subrange(i as int, clauses.len() as int) =~= Seq::<Seq<char>>::empty());
        Ok(Self::from_mode(mode))
    }

    /// Parses a mode: octal when the input is all octal digits, symbolic otherwise.
    pub fn parse(input: &str, current_mode: u32) -> (r: ProteusResult<Self>)
        ensures
            match spec_parse_mode(input@, current_mode) {
                Ok(m) => r matches Ok(p) && p.mode == m,
                Err(msg) => r matches Err(e) && e.is_invalid_argument(msg),
            },
    {
        let s = chars_of(input);
        let mut i: usize = 0;
        while i < s.len()
            invariant
                i <= s@.len(),
                s@ == input@,
                forall|j: int| 0 <= j < i ==> #[trigger] is_octal_digit(s@[j]),
            decreases s@.len() - i,
        {
            if !('0' <= s[i] && s[i] <= '7') {
                assert(!is_octal_digit(s@[i as int]));
                return Self::parse_symbolic(input, current_mode);
            }
            i = i + 1;
        }
        Self::parse_octal(input)
    }

    /// The mode as four octal digits, such as `0755`.
    pub fn to_octal_string(self) -> (r: String)
        ensures
            r@ == octal_view(self.mode),
    {
        let mode = self.mode & ALL_PERMISSIONS;
        assert((mode >> 9) & 7 < 8 && (mode >> 6) & 7 < 8 && (mode >> 3) & 7 < 8 && mode & 7 < 8)
            by (bit_vector);
        let mut v: Vec<char> = Vec::new();
        v.push(digit_char((mode >> 9) & 7));
        v.push(digit_char((mode >> 6) & 7));
        v.push(digit_char((mode >> 3) & 7));
        v.push(digit_char(mode & 7));
        assert(v@ =~= octal_view(self.mode));
        string_of(&v)
    }

    /// The mode in the nine-letter form, such as `rwsr-xr-x`.
    pub fn to_symbolic_string(self) -> (r: String)
        ensures
            r@ == symbolic_view(self.mode),
    {
        let mode = self.mode & ALL_PERMISSIONS;
        let mut v: Vec<char> = Vec::new();
        v.push(bit_char_exec(mode, USER_READ, 'r'));
        v.push(bit_char_exec(mode, USER_WRITE, 'w'));
        v.push(exec_char_exec(mode, USER_EXECUTE, SET_UID, 's', 'S'));
        v.push(bit_char_exec(mode, GROUP_READ, 'r'));
        v.push(bit_char_exec(mode, GROUP_WRITE, 'w'));
        v.push(exec_char_exec(mode, GROUP_EXECUTE, SET_GID, 's', 'S'));
        v.push(bit_char_exec(mode, OTHER_READ, 'r'));
        v.push(bit_char_exec(mode, OTHER_WRITE, 'w'));
        v.push(exec_char_exec(mode, OTHER_EXECUTE, STICKY, 't', 'T'));
        assert(v@ =~= symbolic_view(self.mode));
        string_of(&v)
    }
}

fn bit_char_exec(mode: u32, bit: u32, c: char) -> (r: char)
    ensures
        r == bit_char(mode, bit, c),
{
    if mode & bit != 0 {
        c
    } else {
        '-'
    }
}

fn exec_char_exec(mode: u32, exec: u32, special: u32, lower: char, upper: char) -> (r: char)
    ensures
        r == exec_char(mode, exec, special, lower, upper),
{
    if mode & exec != 0 {
        if mode & special != 0 {
            lower
        } else {
            'x'
        }
    } else if mode & special != 0 {
        upper
    } else {
        '-'
    }
}

fn digit_char(d: u32) -> (c: char)
    requires
        d < 8,
    ensures
        c == octal_char(d),
{
    if d == 0 {
        '0'
    } else if d == 1 {
        '1'
    } else if d == 2 {
        '2'
    } else if d == 3 {
        '3'
    } else if d == 4 {
        '4'
    } else if d == 5 {
        '5'
    } else if d == 6 {
        '6'
    } else {
        '7'
    }
}

fn who_bits_exec(c: char) -> (b: u8)
    requires
        is_who(c),
    ensures
        b == who_bits(c),
{
    if c == 'u' {
        1
    } else if c == 'g' {
        2
    } else if c == 'o' {
        4
    } else {
        7
    }
}

fn perm_bits_exec(targets: u8, c: char) -> (b: u32)
    ensures
        b == perm_bits(targets, c),
{
    let u = targets & 1 != 0;
    let g = targets & 2 != 0;
    let o = targets & 4 != 0;
    if c == 'r' {
        (if u { USER_READ } else { 0 }) | (if g { GROUP_READ } else { 0 }) | (if o { OTHER_READ } else { 0 })
    } else if c == 'w' {
        (if u { USER_WRITE } else { 0 }) | (if g { GROUP_WRITE } else { 0 }) | (if o { OTHER_WRITE } else { 0 })
    } else if c == 'x' {
        (if u { USER_EXECUTE } else { 0 }) | (if g { GROUP_EXECUTE } else { 0 }) | (if o {
            OTHER_EXECUTE
        } else {
            0
        })
    } else if c == 's' {
        (if u { SET_UID } else { 0 }) | (if g { SET_GID } else { 0 })
    } else if c == 't' {
        STICKY
    } else {
        0
    }
}

/// Parses one symbolic clause: who letters, an operator, and permission
/// letters (none is allowed: `o=` clears the bits of others).
pub fn parse_clause(s: &Vec<char>) -> (r: ProteusResult<SymbolicClause>)
    ensures
        match spec_parse_clause(s@) {
            Ok(c) => r matches Ok(p) && p == c,
            Err(msg) => r matches Err(e) && e.is_invalid_argument(msg),
        },
{
    let n = s.len();
    if n == 0 {
        return Err(ProteusError::InvalidArgument(String::from_str("empty symbolic mode clause")));
    }
    let mut index: usize = 0;
    let mut named: u8 = 0;
    while index < n && (s[index] == 'u' || s[index] == 'g' || s[index] == 'o' || s[index] == 'a')
        invariant
            n == s@.len(),
            index <= n,
            who_end(s@, index as int) == who_end(s@, 0),
            named == who_targets(s@, index as int),
        decreases n - index,
    {
        named = named | who_bits_exec(s[index]);
        index = index + 1;
    }
    assert(who_end(s@, index as int) == index);
    let targets: u8 = if named == 0 { 7 } else { named };
    if index >= n {
        return Err(
            ProteusError::InvalidArgument(
                concat_str("missing symbolic operator in mode clause: ", string_of(s).as_str()),
            ),
        );
    }
    let opc = s[index];
    let op = if opc == '+' {
        PermissionOp::Add
    } else if opc == '-' {
        PermissionOp::Remove
    } else if opc == '=' {
        PermissionOp::Assign
    } else {
        return Err(
            ProteusError::InvalidArgument(
                concat_str("invalid symbolic operator in mode clause: ", string_of(s).as_str()),
            ),
        );
    };
    index = index + 1;
    let ghost k = index - 1;
    let ghost ps = s@.subrange(k + 1, n as int);
    assert(k == who_end(s@, 0));
    let mut perms: u32 = 0;
    let mut cond = false;
    let mut j: usize = index;
    while j < n
        invariant
            n == s@.len(),
            k + 1 == index <= j <= n,
            k == who_end(s@, 0),
            0 <= k < n,
            s@[k] == '+' || s@[k] == '-' || s@[k] == '=',
            ps == s@.subrange(k + 1, n as int),
            forall|t: int| 0 <= t < j - index ==> is_perm_char(#[trigger] ps[t]),
            perms == perms_upto(targets, ps, j - index),
            cond == exists|t: int| 0 <= t < j - index && #[trigger] ps[t] == 'X',
        decreases n - j,
    {
        let c = s[j];
        assert(ps[j - index] == c);
        if !(c == 'r' || c == 'w' || c == 'x' || c == 'X' || c == 's' || c == 't') {
            assert(!is_perm_char(ps[j - index]));
            assert(!is_perm_char(s@.subrange(who_end(s@, 0) + 1, s@.len() as int)[j - index]));
            return Err(
                ProteusError::InvalidArgument(
                    concat_str("invalid symbolic permission in mode clause: ", string_of(s).as_str()),
                ),
            );
        }
        if c == 'X' {
            cond = true;
        }
        perms = perms | perm_bits_exec(targets, c);
        j = j + 1;
    }
    Ok(SymbolicClause { targets, op, perms, conditional_execute: cond })
}

fn target_clear_mask(targets: u8) -> (m: u32)
    ensures
        m == spec_clear_mask(targets),
{
    (if targets & 1 != 0 { USER_READ | USER_WRITE | USER_EXECUTE | SET_UID } else { 0 }) | (if targets & 2
        != 0 {
        GROUP_READ | GROUP_WRITE | GROUP_EXECUTE | SET_GID
    } else {
        0
    }) | (if targets & 4 != 0 { OTHER_READ | OTHER_WRITE | OTHER_EXECUTE | STICKY } else { 0 })
}

fn has_any_execute_bit(mode: u32) -> (b: bool)
    ensures
        b == spec_has_any_execute_bit(mode),
{
    mode & (USER_EXECUTE | GROUP_EXECUTE | OTHER_EXECUTE) != 0
}

/// Applies one clause to a mode.
pub fn apply_clause(current_mode: u32, clause: SymbolicClause) -> (r: u32)
    ensures
        r == spec_apply_clause(current_mode, clause),
{
    let mode = current_mode & ALL_PERMISSIONS;
    let mut perms = clause.perms;
    if clause.conditional_execute && has_any_execute_bit(current_mode) {
        perms = perms | ((if clause.targets & 1 != 0 { USER_EXECUTE } else { 0 }) | (if clause.targets & 2
            != 0 {
            GROUP_EXECUTE
        } else {
            0
        }) | (if clause.targets & 4 != 0 { OTHER_EXECUTE } else { 0 }));
    }
    match clause.op {
        PermissionOp::Add => (mode | perms) & ALL_PERMISSIONS,
        PermissionOp::Remove => (mode & !perms) & ALL_PERMISSIONS,
        PermissionOp::Assign => ((mode & !target_clear_mask(clause.targets)) | perms) & ALL_PERMISSIONS,
    }
}

/// Parses a mode string against the current mode (see `PermissionMask::parse`).
pub fn parse_mode(input: &str, current_mode: u32) -> (r: ProteusResult<u32>)
    ensures
        match spec_parse_mode(input@, current_mode) {
            Ok(m) => r == Ok::<u32, ProteusError>(m),
            Err(msg) => r matches Err(e) && e.is_invalid_argument(msg),
        },
{
    match PermissionMask::parse(input, current_mode) {
        Ok(mask) => Ok(mask.mode),
        Err(e) => Err(e),
    }
}

/// The nine-letter form of a mode.
pub fn format_mode(mode: u32) -> (r: String)
    ensures
        r@ == symbolic_view(mode),
{
    assert((mode & ALL_PERMISSIONS) & ALL_PERMISSIONS == mode & ALL_PERMISSIONS) by (bit_vector);
    PermissionMask::from_mode(mode).to_symbolic_string()
}

// ---------------------------------------------------------------------------
// Laws
// ---------------------------------------------------------------------------

/// Every mode that parsing yields lies within the twelve permission bits.
pub proof fn lemma_parse_mode_in_range(s: Seq<char>, current: u32)
    ensures
        spec_parse_mode(s, current) matches Ok(m) ==> m & ALL_PERMISSIONS == m && m <= ALL_PERMISSIONS,
{
    if all_octal(s) {
        if 0 < s.len() <= 4 {
            lemma_octal_value_bound(s);
            lemma_pow8_small();
            assert(pow8(s.len()) <= 4096);
            let v = octal_value(s) as u32;
            assert(v & ALL_PERMISSIONS == v && v <= ALL_PERMISSIONS) by (bit_vector)
                requires
                    v < 4096,
            ;
        }
    } else {
        if let Ok(m0) = spec_apply_clauses(split_chars(s, ','), current & ALL_PERMISSIONS) {
            assert((m0 & ALL_PERMISSIONS) & ALL_PERMISSIONS == m0 & ALL_PERMISSIONS
                && m0 & ALL_PERMISSIONS <= ALL_PERMISSIONS) by (bit_vector);
        }
    }
}

/// Masking a mode twice is masking it once.
pub proof fn lemma_from_mode_idempotent(mode: u32)
    ensures
        (mode & ALL_PERMISSIONS) & ALL_PERMISSIONS == mode & ALL_PERMISSIONS,
{
    assert((mode & ALL_PERMISSIONS) & ALL_PERMISSIONS == mode & ALL_PERMISSIONS) by (bit_vector);
}

/// Reading back the octal digits of a mode gives its twelve permission bits.
pub proof fn lemma_octal_roundtrip(mode: u32)
    ensures
        spec_parse_octal(octal_view(mode)) == Ok::<u32, Seq<char>>(mode & ALL_PERMISSIONS),
        spec_parse_mode(octal_view(mode), 0) == Ok::<u32, Seq<char>>(mode & ALL_PERMISSIONS),
{
    let m = mode & ALL_PERMISSIONS;
    let a = (m >> 9) & 7;
    let b = (m >> 6) & 7;
    let c = (m >> 3) & 7;
    let d = m & 7;
    assert(a < 8 && b < 8 && c < 8 && d < 8 && m == a * 512 + b * 64 + c * 8 + d) by (bit_vector)
        requires
            m == mode & ALL_PERMISSIONS,
            a == (m >> 9) & 7,
            b == (m >> 6) & 7,
            c == (m >> 3) & 7,
            d == m & 7,
    ;
    let s = octal_view(mode);
    assert(all_octal(s)) by {
        assert forall|i: int| 0 <= i < s.len() implies #[trigger] is_octal_digit(s[i]) by {}
    }
    assert(digit_value(octal_char(a)) == a);
    assert(digit_value(octal_char(b)) == b);
    assert(digit_value(octal_char(c)) == c);
    assert(digit_value(octal_char(d)) == d);
    assert(s.drop_last().drop_last().drop_last().drop_last() =~= Seq::<char>::empty());
    assert(s.drop_last().drop_last().drop_last() =~= seq![octal_char(a)]);
    assert(octal_value(Seq::<char>::empty()) == 0);
    assert(octal_value(s.drop_last().drop_last().drop_last()) == a);
    assert(octal_value(s.drop_last().drop_last()) == a * 8 + b);
    assert(octal_value(s.drop_last()) == (a * 8 + b) * 8 + c);
    assert(octal_value(s) == ((a * 8 + b) * 8 + c) * 8 + d);
}

/// The nine-letter form is always nine letters long, and each read, write and
/// execute letter appears exactly when its bit is set.
pub proof fn lemma_symbolic_view_bits(mode: u32)
    ensures
        symbolic_view(mode).len() == 9,
        (symbolic_view(mode)[0] == 'r') == (mode & USER_READ != 0),
        (symbolic_view(mode)[1] == 'w') == (mode & USER_WRITE != 0),
        (symbolic_view(mode)[4] == 'w') == (mode & GROUP_WRITE != 0),
        (symbolic_view(mode)[7] == 'w') == (mode & OTHER_WRITE != 0),
{
    let m = mode & ALL_PERMISSIONS;
    assert((m & USER_READ != 0) == (mode & USER_READ != 0) && (m & USER_WRITE != 0) == (mode & USER_WRITE
        != 0) && (m & GROUP_WRITE != 0) == (mode & GROUP_WRITE != 0) && (m & OTHER_WRITE != 0) == (mode
        & OTHER_WRITE != 0)) by (bit_vector)
        requires
            m == mode & 0o7777u32,
    ;
}

/// The bits that the conditional `X` adds for `targets`, written out.
spec fn exec_bits_of(t: u8) -> u32 {
    (if t & 1 != 0 { 0o100u32 } else { 0u32 }) | (if t & 2 != 0 { 0o010u32 } else { 0u32 }) | (if t & 4 != 0 {
        0o001u32
    } else {
        0u32
    })
}

/// The bits that `=` clears for `targets`, written out.
spec fn clear_bits_of(t: u8) -> u32 {
    (if t & 1 != 0 { 0o4700u32 } else { 0u32 }) | (if t & 2 != 0 { 0o2070u32 } else { 0u32 }) | (if t & 4 != 0 {
        0o1007u32
    } else {
        0u32
    })
}

/// The execute bits of a parsed clause's permissions are none of them or
/// all the execute bits of its targets.
spec fn exec_all_or_none(p: u32, tx: u32) -> bool {
    p & 0o111u32 == 0 || p & 0o111u32 == tx
}

proof fn lemma_who_targets_small(s: Seq<char>, n: int)
    ensures
        who_targets(s, n) < 8,
    decreases n,
{
    if n > 0 {
        lemma_who_targets_small(s, n - 1);
        let a = who_targets(s, n - 1);
        let b = who_bits(s[n - 1]);
        assert(b < 8);
        assert(a < 8 && b < 8 ==> a | b < 8) by (bit_vector);
    }
}

proof fn lemma_perm_bits_exec(t: u8, c: char)
    requires
        t < 8,
    ensures
        exec_all_or_none(perm_bits(t, c), exec_bits_of(t)),
{
    let u = t & 1 != 0;
    let g = t & 2 != 0;
    let o = t & 4 != 0;
    let tx = exec_bits_of(t);
    assert(tx == (if u { 0o100u32 } else { 0u32 }) | (if g { 0o010u32 } else { 0u32 }) | (if o { 0o001u32 } else { 0u32 }));
    if c == 'r' {
        assert((((if u { 0o400u32 } else { 0u32 }) | (if g { 0o040u32 } else { 0u32 }) | (if o { 0o004u32 } else { 0u32 }))
            & 0o111u32) == 0) by (bit_vector);
    } else if c == 'w' {
        assert((((if u { 0o200u32 } else { 0u32 }) | (if g { 0o020u32 } else { 0u32 }) | (if o { 0o002u32 } else { 0u32 }))
            & 0o111u32) == 0) by (bit_vector);
    } else if c == 'x' {
        assert((((if u { 0o100u32 } else { 0u32 }) | (if g { 0o010u32 } else { 0u32 }) | (if o { 0o001u32 } else { 0u32 }))
            & 0o111u32) == ((if u { 0o100u32 } else { 0u32 }) | (if g { 0o010u32 } else { 0u32 }) | (if o {
            0o001u32
        } else {
            0u32
        }))) by (bit_vector);
    } else if c == 's' {
        assert((((if u { 0o4000u32 } else { 0u32 }) | (if g { 0o2000u32 } else { 0u32 })) & 0o111u32) == 0) by (bit_vector);
    } else if c == 't' {
        assert(0o1000u32 & 0o111u32 == 0) by (bit_vector);
    } else {
        assert(0u32 & 0o111u32 == 0) by (bit_vector);
    }
}

proof fn lemma_perms_upto_exec(t: u8, s: Seq<char>, n: int)
    requires
        t < 8,
    ensures
        exec_all_or_none(perms_upto(t, s, n), exec_bits_of(t)),
    decreases n,
{
    if n > 0 {
        lemma_perms_upto_exec(t, s, n - 1);
        lemma_perm_bits_exec(t, s[n - 1]);
        let a = perms_upto(t, s, n - 1);
        let b = perm_bits(t, s[n - 1]);
        let tx = exec_bits_of(t);
        assert((a & 0o111u32 == 0 || a & 0o111u32 == tx) && (b & 0o111u32 == 0 || b & 0o111u32 == tx) ==> ((a | b)
            & 0o111u32 == 0 || (a | b) & 0o111u32 == tx)) by (bit_vector);
    } else {
        assert(0u32 & 0o111u32 == 0) by (bit_vector);
    }
}

/// The core of idempotence, on the bits: applying the same permissions
/// twice with the same operator gives what applying them once gives.
proof fn lemma_apply_twice_bits(m: u32, p: u32, t: u8, cond: bool, op: PermissionOp)
    requires
        t < 8,
        t & 7 != 0,
        exec_all_or_none(p, exec_bits_of(t)),
    ensures
        ({
            let tx = exec_bits_of(t);
            let cl = clear_bits_of(t);
            let p1 = if cond && m & 0o111u32 != 0 { p | tx } else { p };
            let r1 = match op {
                PermissionOp::Add => ((m & 0o7777u32) | p1) & 0o7777u32,
                PermissionOp::Remove => ((m & 0o7777u32) & !p1) & 0o7777u32,
                PermissionOp::Assign => (((m & 0o7777u32) & !cl) | p1) & 0o7777u32,
            };
            let p2 = if cond && r1 & 0o111u32 != 0 { p | tx } else { p };
            let r2 = match op {
                PermissionOp::Add => ((r1 & 0o7777u32) | p2) & 0o7777u32,
                PermissionOp::Remove => ((r1 & 0o7777u32) & !p2) & 0o7777u32,
                PermissionOp::Assign => (((r1 & 0o7777u32) & !cl) | p2) & 0o7777u32,
            };
            r2 == r1
        }),
{
    let u = t & 1 != 0;
    let g = t & 2 != 0;
    let o = t & 4 != 0;
    assert(t < 8 && t & 7 != 0 ==> t & 1 != 0 || t & 2 != 0 || t & 4 != 0) by (bit_vector);
    let tx = exec_bits_of(t);
    let cl = clear_bits_of(t);
    assert(tx == (if u { 0o100u32 } else { 0u32 }) | (if g { 0o010u32 } else { 0u32 }) | (if o { 0o001u32 } else { 0u32 }));
    assert(cl == (if u { 0o4700u32 } else { 0u32 }) | (if g { 0o2070u32 } else { 0u32 }) | (if o { 0o1007u32 } else { 0u32 }));
    assert((u || g || o) ==> tx != 0 && tx & 0o111u32 == tx && tx & 0o7777u32 == tx) by (bit_vector)
        requires
            tx == (if u { 0o100u32 } else { 0u32 }) | (if g { 0o010u32 } else { 0u32 }) | (if o { 0o001u32 } else { 0u32 });
    match op {
        PermissionOp::Add => {
            assert(({
                let p1 = if cond && m & 0o111u32 != 0 { p | tx } else { p };
                let r1 = ((m & 0o7777u32) | p1) & 0o7777u32;
                let p2 = if cond && r1 & 0o111u32 != 0 { p | tx } else { p };
                ((r1 & 0o7777u32) | p2) & 0o7777u32 == r1
            })) by (bit_vector)
                requires
                    tx != 0 && tx & 0o111u32 == tx && tx & 0o7777u32 == tx,
                    p & 0o111u32 == 0 || p & 0o111u32 == tx;
        },
        PermissionOp::Remove => {
            assert(({
                let p1 = if cond && m & 0o111u32 != 0 { p | tx } else { p };
                let r1 = ((m & 0o7777u32) & !p1) & 0o7777u32;
                let p2 = if cond && r1 & 0o111u32 != 0 { p | tx } else { p };
                ((r1 & 0o7777u32) & !p2) & 0o7777u32 == r1
            })) by (bit_vector)
                requires
                    tx != 0 && tx & 0o111u32 == tx && tx & 0o7777u32 == tx,
                    p & 0o111u32 == 0 || p & 0o111u32 == tx;
        },
        PermissionOp::Assign => {
            assert(({
                let p1 = if cond && m & 0o111u32 != 0 { p | tx } else { p };
                let r1 = (((m & 0o7777u32) & !cl) | p1) & 0o7777u32;
                let p2 = if cond && r1 & 0o111u32 != 0 { p | tx } else { p };
                (((r1 & 0o7777u32) & !cl) | p2) & 0o7777u32 == r1
            })) by (bit_vector)
                requires
                    tx != 0 && tx & 0o111u32 == tx && tx & 0o7777u32 == tx,
                    p & 0o111u32 == 0 || p & 0o111u32 == tx;
        },
    }
}

/// Applying a clause a second time changes nothing: for `+`, `-` and `=`,
/// with or without the conditional `X`.
pub proof fn lemma_clause_twice(s: Seq<char>, mode: u32)
    requires
        spec_parse_clause(s) is Ok,
    ensures
        ({
            let c = spec_parse_clause(s)->Ok_0;
            spec_apply_clause(spec_apply_clause(mode, c), c) == spec_apply_clause(mode, c)
        }),
{
    let c = spec_parse_clause(s)->Ok_0;
    let k = who_end(s, 0);
    lemma_who_targets_small(s, k);
    let t = c.targets;
    assert(t < 8 && t & 7 != 0) by {
        let named = who_targets(s, k);
        assert(named < 8 && named != 0 ==> named & 7 != 0) by (bit_vector);
        assert(7u8 & 7u8 != 0) by (bit_vector);
    }
    lemma_perms_upto_exec(t, s.subrange(k + 1, s.len() as int), s.subrange(k + 1, s.len() as int).len() as int);
    lemma_apply_twice_bits(mode, c.perms, t, c.conditional_execute, c.op);
    lemma_mask_constants();
    assert(target_execute_bits(t) == exec_bits_of(t));
    assert(spec_clear_mask(t) == clear_bits_of(t));
}

proof fn lemma_mask_constants()
    ensures
        USER_EXECUTE | GROUP_EXECUTE | OTHER_EXECUTE == 0o111u32,
        USER_READ | USER_WRITE | USER_EXECUTE | SET_UID == 0o4700u32,
        GROUP_READ | GROUP_WRITE | GROUP_EXECUTE | SET_GID == 0o2070u32,
        OTHER_READ | OTHER_WRITE | OTHER_EXECUTE | STICKY == 0o1007u32,
        ALL_PERMISSIONS == 0o7777u32,
{
    assert(0o100u32 | 0o010u32 | 0o001u32 == 0o111u32) by (bit_vector);
    assert(0o400u32 | 0o200u32 | 0o100u32 | 0o4000u32 == 0o4700u32) by (bit_vector);
    assert(0o040u32 | 0o020u32 | 0o010u32 | 0o2000u32 == 0o2070u32) by (bit_vector);
    assert(0o004u32 | 0o002u32 | 0o001u32 | 0o1000u32 == 0o1007u32) by (bit_vector);
}

/// A clause with no comma applied as a symbolic mode: applying it again to
/// the mode it gave changes nothing.
pub proof fn lemma_symbolic_clause_twice(s: Seq<char>, mode: u32)
    requires
        !s.contains(','),
        spec_parse_symbolic(s, mode) is Ok,
    ensures
        spec_parse_symbolic(s, spec_parse_symbolic(s, mode)->Ok_0) == spec_parse_symbolic(s, mode),
{
    lemma_split_without_sep(s, ',');
    let cl = split_chars(s, ',');
    assert(cl.drop_first() =~= Seq::<Seq<char>>::empty());
    let c = spec_parse_clause(s)->Ok_0;
    let m0 = mode & ALL_PERMISSIONS;
    let r1 = spec_apply_clause(m0, c);
    assert(r1 & ALL_PERMISSIONS == r1) by {
        let x = spec_apply_clause(m0, c);
        assert(x & 0o7777u32 == x) by {
            lemma_apply_in_range(m0, c);
        }
    }
    assert(cl[0] == s);
    assert(spec_apply_clauses(cl.drop_first(), r1) == Ok::<u32, Seq<char>>(r1));
    assert(spec_apply_clauses(cl, m0) == Ok::<u32, Seq<char>>(r1));
    assert(spec_parse_symbolic(s, mode) == Ok::<u32, Seq<char>>(r1));
    lemma_clause_twice(s, m0);
    let r2 = spec_apply_clause(r1, c);
    assert(r1 & ALL_PERMISSIONS == r1);
    assert(spec_apply_clauses(cl.drop_first(), r2) == Ok::<u32, Seq<char>>(r2));
    assert(spec_apply_clauses(cl, r1) == Ok::<u32, Seq<char>>(r2));
    assert(spec_parse_symbolic(s, r1) == Ok::<u32, Seq<char>>(spec_apply_clause(r1, c) & ALL_PERMISSIONS));
    lemma_apply_in_range(r1, c);
}

proof fn lemma_apply_in_range(m: u32, c: SymbolicClause)
    ensures
        spec_apply_clause(m, c) & 0o7777u32 == spec_apply_clause(m, c),
{
    let mode = m & ALL_PERMISSIONS;
    let perms = if c.conditional_execute && spec_has_any_execute_bit(m) {
        c.perms | target_execute_bits(c.targets)
    } else {
        c.perms
    };
    let cl = spec_clear_mask(c.targets);
    assert(((mode | perms) & 0o7777u32) & 0o7777u32 == (mode | perms) & 0o7777u32) by (bit_vector);
    assert(((mode & !perms) & 0o7777u32) & 0o7777u32 == (mode & !perms) & 0o7777u32) by (bit_vector);
    assert((((mode & !cl) | perms) & 0o7777u32) & 0o7777u32 == ((mode & !cl) | perms) & 0o7777u32) by (bit_vector);
}

/// Splitting a sequence that does not hold `sep` gives the sequence alone.
proof fn lemma_split_without_sep(s: Seq<char>, sep: char)
    requires
        !s.contains(sep),
    ensures
        split_chars(s, sep) == seq![s],
    decreases s.len(),
{
    if s.len() > 0 {
        assert(!s.drop_last().contains(sep)) by {
            if s.drop_last().contains(sep) {
                let i = choose|i: int| 0 <= i < s.drop_last().len() && s.drop_last()[i] == sep;
                assert(s[i] == sep);
            }
        }
        lemma_split_without_sep(s.drop_last(), sep);
        assert(s.last() != sep) by {
            assert(s[s.len() - 1] == s.last());
        }
        assert(s.drop_last().push(s.last()) =~= s);
        assert(split_chars(s, sep) =~= seq![s]);
    } else {
        assert(s =~= Seq::<char>::empty());
    }
}

} // verus!
