//! A small regular-expression engine with POSIX basic and extended syntax:
//! a recursive-descent parser to an abstract syntax tree, and a matcher that
//! computes every position at which each sub-expression can end.

use vstd::prelude::*;
use crate::text::chars_of;

verus! {

broadcast use vstd::std_specs::vec::group_vec_axioms;

#[derive(Debug, Clone, Copy, PartialEq, Eq, Structural)]
pub enum RegexSyntax {
    Basic,
    Extended,
}

#[derive(Debug, Clone, Copy, PartialEq, Eq, Structural)]
pub enum RegexError {
    EmptyPattern,
    UnexpectedEnd,
    UnclosedGroup,
    UnclosedClass,
    InvalidEscape(char),
    InvalidRange(char, char),
    UnexpectedToken(char),
}

#[derive(Debug, Clone, Copy, PartialEq, Eq, Structural)]
pub enum ClassItem {
    Single(char),
    Range(char, char),
    Digit,
    Alpha,
    Alnum,
    Space,
    Lower,
    Upper,
    Word,
}

#[derive(Debug, Clone, PartialEq, Eq)]
pub struct CharClass {
    negated: bool,
    items: Vec<ClassItem>,
}

#[derive(Debug, PartialEq, Eq)]
pub enum Ast {
    Empty,
    Literal(char),
    Any,
    Class(CharClass),
    Concat(Vec<Ast>),
    Alternate(Vec<Ast>),
    Repeat { node: Box<Ast>, min: usize, max: Option<usize> },
    AnchorStart,
    AnchorEnd,
    Group(Box<Ast>),
}

#[derive(Debug)]
pub struct Regex {
    ast: Ast,
    syntax: RegexSyntax,
}

/// The mathematical form of an [`Ast`], with sequences in place of vectors.
pub enum SpecAst {
    Empty,
    Literal(char),
    Any,
    Class(bool, Seq<ClassItem>),
    Concat(Seq<SpecAst>),
    Alternate(Seq<SpecAst>),
    Repeat(Box<SpecAst>, usize, Option<usize>),
    AnchorStart,
    AnchorEnd,
    Group(Box<SpecAst>),
}

pub open spec fn ast_view(a: Ast) -> SpecAst
    decreases a,
{
    match a {
        Ast::Empty => SpecAst::Empty,
        Ast::Literal(c) => SpecAst::Literal(c),
        Ast::Any => SpecAst::Any,
        Ast::Class(c) => SpecAst::Class(c.spec_negated(), c.spec_items()),
        Ast::Concat(nodes) => SpecAst::Concat(asts_view(nodes@)),
        Ast::Alternate(nodes) => SpecAst::Alternate(asts_view(nodes@)),
        Ast::Repeat { node, min, max } => SpecAst::Repeat(Box::new(ast_view(*node)), min, max),
        Ast::AnchorStart => SpecAst::AnchorStart,
        Ast::AnchorEnd => SpecAst::AnchorEnd,
        Ast::Group(inner) => SpecAst::Group(Box::new(ast_view(*inner))),
    }
}

pub open spec fn asts_view(s: Seq<Ast>) -> Seq<SpecAst>
    decreases s,
{
    if s.len() == 0 {
        Seq::empty()
    } else {
        asts_view(s.drop_last()).push(ast_view(s.last()))
    }
}

pub proof fn lemma_asts_view(s: Seq<Ast>)
    ensures
        asts_view(s).len() == s.len(),
        forall|i: int| 0 <= i < s.len() ==> #[trigger] asts_view(s)[i] == ast_view(s[i]),
    decreases s.len(),
{
    if s.len() > 0 {
        lemma_asts_view(s.drop_last());
        assert forall|i: int| 0 <= i < s.len() implies #[trigger] asts_view(s)[i] == ast_view(s[i]) by {
            if i < s.len() - 1 {
                assert(s.drop_last()[i] == s[i]);
            }
        }
    }
}

// ---------------------------------------------------------------------------
// The grammar, as a deterministic recursive-descent reading of the pattern.
// Each function reads from position `pos` and yields the tree it built and
// the position after it, or the error the parser reports.
// ---------------------------------------------------------------------------

pub open spec fn peek_at(cs: Seq<char>, i: int) -> Option<char> {
    if 0 <= i < cs.len() {
        Some(cs[i])
    } else {
        None
    }
}

/// The characters at which a sequence of atoms stops: `)` and `]`, also `|`
/// in extended syntax and `\)` in basic syntax.
pub open spec fn ends_concat(cs: Seq<char>, syn: RegexSyntax, i: int) -> bool {
    let ch = cs[i];
    match syn {
        RegexSyntax::Basic => ch == ')' || ch == ']' || (ch == '\\' && peek_at(cs, i + 1) == Some(')')),
        RegexSyntax::Extended => ch == '|' || ch == ')' || ch == ']',
    }
}

pub open spec fn finish_concat(nodes: Seq<SpecAst>) -> SpecAst {
    if nodes.len() == 0 {
        SpecAst::Empty
    } else if nodes.len() == 1 {
        nodes[0]
    } else {
        SpecAst::Concat(nodes)
    }
}

pub open spec fn finish_alternation(branches: Seq<SpecAst>) -> SpecAst {
    if branches.len() == 1 {
        branches[0]
    } else {
        SpecAst::Alternate(branches)
    }
}

pub open spec fn sp_alternation(cs: Seq<char>, syn: RegexSyntax, pos: int) -> Result<(SpecAst, int), RegexError>
    decreases cs.len() - pos, 4int,
{
    match sp_concat(cs, syn, pos, Seq::empty()) {
        Err(e) => Err(e),
        Ok((first, p)) => {
            if p < pos || p > cs.len() {
                Err(RegexError::UnexpectedEnd)
            } else if syn == RegexSyntax::Extended {
                sp_alt_rest(cs, syn, p, seq![first])
            } else {
                Ok((first, p))
            }
        },
    }
}

pub open spec fn sp_alt_rest(cs: Seq<char>, syn: RegexSyntax, pos: int, branches: Seq<SpecAst>) -> Result<
    (SpecAst, int),
    RegexError,
>
    decreases cs.len() - pos, 3int,
{
    if pos < cs.len() && cs[pos] == '|' {
        match sp_concat(cs, syn, pos + 1, Seq::empty()) {
            Err(e) => Err(e),
            Ok((b, q)) => {
                if q <= pos || q > cs.len() {
                    Err(RegexError::UnexpectedEnd)
                } else {
                    sp_alt_rest(cs, syn, q, branches.push(b))
                }
            },
        }
    } else {
        Ok((finish_alternation(branches), pos))
    }
}

pub open spec fn sp_concat(cs: Seq<char>, syn: RegexSyntax, pos: int, nodes: Seq<SpecAst>) -> Result<
    (SpecAst, int),
    RegexError,
>
    decreases cs.len() - pos, 2int,
{
    if pos < 0 || pos >= cs.len() || ends_concat(cs, syn, pos) {
        Ok((finish_concat(nodes), pos))
    } else {
        match sp_atom(cs, syn, pos) {
            Err(e) => Err(e),
            Ok((a, p1)) => {
                if p1 <= pos || p1 > cs.len() {
                    Err(RegexError::UnexpectedEnd)
                } else {
                    let (q, p2) = sp_quant(cs, syn, p1, a);
                    if p2 < p1 || p2 > cs.len() {
                        Err(RegexError::UnexpectedEnd)
                    } else {
                        sp_concat(cs, syn, p2, nodes.push(q))
                    }
                }
            },
        }
    }
}

pub open spec fn sp_quant(cs: Seq<char>, syn: RegexSyntax, pos: int, node: SpecAst) -> (SpecAst, int) {
    let star = SpecAst::Repeat(Box::new(node), 0, None);
    let plus = SpecAst::Repeat(Box::new(node), 1, None);
    let opt = SpecAst::Repeat(Box::new(node), 0, Some(1));
    match peek_at(cs, pos) {
        None => (node, pos),
        Some(ch) => match syn {
            RegexSyntax::Basic => {
                if ch == '*' {
                    (star, pos + 1)
                } else if ch == '\\' && peek_at(cs, pos + 1) is Some {
                    let next = cs[pos + 1];
                    if next == '*' {
                        (star, pos + 2)
                    } else if next == '+' {
                        (plus, pos + 2)
                    } else if next == '?' {
                        (opt, pos + 2)
                    } else {
                        (node, pos)
                    }
                } else {
                    (node, pos)
                }
            },
            RegexSyntax::Extended => {
                if ch == '*' {
                    (star, pos + 1)
                } else if ch == '+' {
                    (plus, pos + 1)
                } else if ch == '?' {
                    (opt, pos + 1)
                } else {
                    (node, pos)
                }
            },
        },
    }
}

pub open spec fn sp_atom(cs: Seq<char>, syn: RegexSyntax, pos: int) -> Result<(SpecAst, int), RegexError>
    decreases cs.len() - pos, 1int,
{
    if pos < 0 || pos >= cs.len() {
        Err(RegexError::UnexpectedEnd)
    } else {
        let ch = cs[pos];
        let p = pos + 1;
        if ch == '.' {
            Ok((SpecAst::Any, p))
        } else if ch == '^' {
            Ok((SpecAst::AnchorStart, p))
        } else if ch == '$' {
            Ok((SpecAst::AnchorEnd, p))
        } else if ch == '[' {
            sp_class(cs, p)
        } else if ch == '(' && syn == RegexSyntax::Extended {
            match sp_alternation(cs, syn, p) {
                Err(e) => Err(e),
                Ok((inner, q)) => {
                    if peek_at(cs, q) != Some(')') {
                        Err(RegexError::UnclosedGroup)
                    } else {
                        Ok((SpecAst::Group(Box::new(inner)), q + 1))
                    }
                },
            }
        } else if ch == '\\' {
            sp_escape(cs, syn, p)
        } else if (ch == '*' || ch == '+' || ch == '?' || ch == '|' || ch == ')') && syn
            == RegexSyntax::Extended {
            Err(RegexError::UnexpectedToken(ch))
        } else {
            Ok((SpecAst::Literal(ch), p))
        }
    }
}

pub open spec fn sp_escape(cs: Seq<char>, syn: RegexSyntax, pos: int) -> Result<(SpecAst, int), RegexError>
    decreases cs.len() - pos, 0int,
{
    if pos < 0 || pos >= cs.len() {
        Err(RegexError::UnexpectedEnd)
    } else {
        let ch = cs[pos];
        let p = pos + 1;
        if ch == 'd' {
            Ok((single_class(ClassItem::Digit), p))
        } else if ch == 'w' {
            Ok((single_class(ClassItem::Word), p))
        } else if ch == 's' {
            Ok((single_class(ClassItem::Space), p))
        } else if ch == '(' && syn == RegexSyntax::Basic {
            match sp_alternation(cs, syn, p) {
                Err(e) => Err(e),
                Ok((inner, q)) => {
                    if peek_at(cs, q) != Some('\\') || peek_at(cs, q + 1) != Some(')') {
                        Err(RegexError::UnclosedGroup)
                    } else {
                        Ok((SpecAst::Group(Box::new(inner)), q + 2))
                    }
                },
            }
        } else {
            Ok((SpecAst::Literal(ch), p))
        }
    }
}

/// A one-item, non-negated class, as `\d`, `\w` and `\s` denote.
pub open spec fn single_class(item: ClassItem) -> SpecAst {
    SpecAst::Class(false, seq![item])
}

pub open spec fn sp_class(cs: Seq<char>, pos: int) -> Result<(SpecAst, int), RegexError> {
    if peek_at(cs, pos) == Some('^') || peek_at(cs, pos) == Some('!') {
        sp_class_loop(cs, pos + 1, true, Seq::empty(), true)
    } else {
        sp_class_loop(cs, pos, false, Seq::empty(), true)
    }
}

pub open spec fn sp_class_loop(cs: Seq<char>, pos: int, negated: bool, items: Seq<ClassItem>, first: bool) -> Result<
    (SpecAst, int),
    RegexError,
>
    decreases cs.len() - pos,
{
    if pos < 0 || pos >= cs.len() {
        Err(RegexError::UnclosedClass)
    } else if cs[pos] == ']' && !first {
        Ok((SpecAst::Class(negated, items), pos + 1))
    } else {
        let r = if cs[pos] == '[' && peek_at(cs, pos + 1) == Some(':') {
            sp_posix(cs, pos + 2, pos + 2)
        } else {
            sp_class_item(cs, pos)
        };
        match r {
            Err(e) => Err(e),
            Ok((item, q)) => {
                if q <= pos || q > cs.len() {
                    Err(RegexError::UnclosedClass)
                } else {
                    sp_class_loop(cs, q, negated, items.push(item), false)
                }
            },
        }
    }
}

pub open spec fn posix_item(name: Seq<char>) -> Option<ClassItem> {
    if name == seq!['d', 'i', 'g', 'i', 't'] {
        Some(ClassItem::Digit)
    } else if name == seq!['a', 'l', 'p', 'h', 'a'] {
        Some(ClassItem::Alpha)
    } else if name == seq!['a', 'l', 'n', 'u', 'm'] {
        Some(ClassItem::Alnum)
    } else if name == seq!['s', 'p', 'a', 'c', 'e'] {
        Some(ClassItem::Space)
    } else if name == seq!['l', 'o', 'w', 'e', 'r'] {
        Some(ClassItem::Lower)
    } else if name == seq!['u', 'p', 'p', 'e', 'r'] {
        Some(ClassItem::Upper)
    } else if name == seq!['w', 'o', 'r', 'd'] {
        Some(ClassItem::Word)
    } else {
        None
    }
}

/// A `[:name:]` class: the name runs from `start` to the first `:` that is
/// followed, one character later, by `]`.
pub open spec fn sp_posix(cs: Seq<char>, start: int, j: int) -> Result<(ClassItem, int), RegexError>
    decreases cs.len() - j,
{
    if j < 0 || j >= cs.len() {
        Err(RegexError::UnclosedClass)
    } else if cs[j] == ':' && peek_at(cs, j + 2) == Some(']') {
        match posix_item(cs.subrange(start, j)) {
            Some(item) => Ok((item, j + 2)),
            None => Err(RegexError::UnexpectedToken('[')),
        }
    } else {
        sp_posix(cs, start, j + 1)
    }
}

pub open spec fn sp_class_char(cs: Seq<char>, pos: int) -> Result<(char, int), RegexError> {
    match peek_at(cs, pos) {
        None => Err(RegexError::UnclosedClass),
        Some(ch) => {
            if ch == '\\' {
                match peek_at(cs, pos + 1) {
                    None => Err(RegexError::UnexpectedEnd),
                    Some(e) => Ok((e, pos + 2)),
                }
            } else {
                Ok((ch, pos + 1))
            }
        },
    }
}

pub open spec fn sp_class_item(cs: Seq<char>, pos: int) -> Result<(ClassItem, int), RegexError> {
    match sp_class_char(cs, pos) {
        Err(e) => Err(e),
        Ok((start, p1)) => {
            if peek_at(cs, p1) == Some('-') && peek_at(cs, p1 + 1) != Some(']') {
                match sp_class_char(cs, p1 + 1) {
                    Err(e) => Err(e),
                    Ok((end, p2)) => {
                        if start > end {
                            Err(RegexError::InvalidRange(start, end))
                        } else {
                            Ok((ClassItem::Range(start, end), p2))
                        }
                    },
                }
            } else {
                Ok((ClassItem::Single(start), p1))
            }
        },
    }
}

/// The tree a whole pattern parses to, or the error reported for it.
pub open spec fn spec_parse(cs: Seq<char>, syn: RegexSyntax) -> Result<SpecAst, RegexError> {
    if cs.len() == 0 {
        Err(RegexError::EmptyPattern)
    } else {
        match sp_alternation(cs, syn, 0) {
            Err(e) => Err(e),
            Ok((a, p)) => match peek_at(cs, p) {
                Some(ch) => Err(RegexError::UnexpectedToken(ch)),
                None => Ok(a),
            },
        }
    }
}


// ---------------------------------------------------------------------------
// Parser
// ---------------------------------------------------------------------------

/// How a parse step relates to the grammar: on success the tree it built
/// reads as `a` and the parser stands at `p`; on failure it reports `e`.
pub open spec fn parsed_as(r: Result<Ast, RegexError>, s: Result<(SpecAst, int), RegexError>, pos: int) -> bool {
    match s {
        Ok((a, p)) => r matches Ok(x) && ast_view(x) == a && pos == p,
        Err(e) => r == Err::<Ast, RegexError>(e),
    }
}

struct Parser {
    chars: Vec<char>,
    pos: usize,
    syntax: RegexSyntax,
}

fn chars_equal(a: &Vec<char>, b: &[char]) -> (r: bool)
    ensures
        r == (a@ == b@),
{
    if a.len() != b.len() {
        return false;
    }
    let mut i: usize = 0;
    while i < a.len()
        invariant
            a@.len() == b@.len(),
            i <= a@.len(),
            forall|j: int| 0 <= j < i ==> a@[j] == b@[j],
        decreases a@.len() - i,
    {
        if a[i] != b[i] {
            return false;
        }
        i = i + 1;
    }
    assert(a@ =~= b@);
    true
}

fn posix_item_exec(name: &Vec<char>) -> (r: Option<ClassItem>)
    ensures
        r == posix_item(name@),
{
    let digit = ['d', 'i', 'g', 'i', 't'];
    let alpha = ['a', 'l', 'p', 'h', 'a'];
    let alnum = ['a', 'l', 'n', 'u', 'm'];
    let space = ['s', 'p', 'a', 'c', 'e'];
    let lower = ['l', 'o', 'w', 'e', 'r'];
    let upper = ['u', 'p', 'p', 'e', 'r'];
    let word = ['w', 'o', 'r', 'd'];
    assert(digit@ =~= seq!['d', 'i', 'g', 'i', 't']);
    assert(alpha@ =~= seq!['a', 'l', 'p', 'h', 'a']);
    assert(alnum@ =~= seq!['a', 'l', 'n', 'u', 'm']);
    assert(space@ =~= seq!['s', 'p', 'a', 'c', 'e']);
    assert(lower@ =~= seq!['l', 'o', 'w', 'e', 'r']);
    assert(upper@ =~= seq!['u', 'p', 'p', 'e', 'r']);
    assert(word@ =~= seq!['w', 'o', 'r', 'd']);
    if chars_equal(name, &digit) {
        Some(ClassItem::Digit)
    } else if chars_equal(name, &alpha) {
        Some(ClassItem::Alpha)
    } else if chars_equal(name, &alnum) {
        Some(ClassItem::Alnum)
    } else if chars_equal(name, &space) {
        Some(ClassItem::Space)
    } else if chars_equal(name, &lower) {
        Some(ClassItem::Lower)
    } else if chars_equal(name, &upper) {
        Some(ClassItem::Upper)
    } else if chars_equal(name, &word) {
        Some(ClassItem::Word)
    } else {
        None
    }
}

fn finish_concat_exec(mut nodes: Vec<Ast>) -> (r: Ast)
    ensures
        ast_view(r) == finish_concat(asts_view(nodes@)),
{
    proof { lemma_asts_view(nodes@); }
    if nodes.len() == 0 {
        Ast::Empty
    } else if nodes.len() == 1 {
        nodes.remove(0)
    } else {
        Ast::Concat(nodes)
    }
}

fn finish_alternation_exec(mut branches: Vec<Ast>) -> (r: Ast)
    requires
        branches@.len() >= 1,
    ensures
        ast_view(r) == finish_alternation(asts_view(branches@)),
{
    proof { lemma_asts_view(branches@); }
    if branches.len() == 1 {
        branches.remove(0)
    } else {
        Ast::Alternate(branches)
    }
}

proof fn lemma_asts_view_push(s: Seq<Ast>, a: Ast)
    ensures
        asts_view(s.push(a)) == asts_view(s).push(ast_view(a)),
{
    assert(s.push(a).drop_last() =~= s);
}

impl Parser {
    spec fn wf(&self) -> bool {
        self.pos <= self.chars@.len()
    }

    spec fn same_input(&self, other: &Parser) -> bool {
        self.chars@ == other.chars@ && self.syntax == other.syntax && self.wf()
    }

    fn new(pattern: &str, syntax: RegexSyntax) -> (p: Self)
        ensures
            p.chars@ == pattern@,
            p.pos == 0,
            p.syntax == syntax,
    {
        Parser { chars: chars_of(pattern), pos: 0, syntax }
    }

    fn peek(&self) -> (r: Option<char>)
        requires
            self.wf(),
        ensures
            r == peek_at(self.chars@, self.pos as int),
    {
        if self.pos < self.chars.len() {
            Some(self.chars[self.pos])
        } else {
            None
        }
    }

    fn peek_next(&self) -> (r: Option<char>)
        requires
            self.wf(),
        ensures
            r == peek_at(self.chars@, self.pos + 1),
    {
        if self.pos < self.chars.len() && self.chars.len() - self.pos > 1 {
            Some(self.chars[self.pos + 1])
        } else {
            None
        }
    }

    fn peek_two_ahead(&self) -> (r: Option<char>)
        requires
            self.wf(),
        ensures
            r == peek_at(self.chars@, self.pos + 2),
    {
        if self.pos < self.chars.len() && self.chars.len() - self.pos > 2 {
            Some(self.chars[self.pos + 2])
        } else {
            None
        }
    }

    fn advance(&mut self) -> (r: Option<char>)
        requires
            old(self).wf(),
        ensures
            final(self).same_input(old(self)),
            r == peek_at(old(self).chars@, old(self).pos as int),
            final(self).pos == if r is Some { old(self).pos + 1 } else { old(self).pos as int },
    {
        if self.pos < self.chars.len() {
            let c = self.chars[self.pos];
            self.pos = self.pos + 1;
            Some(c)
        } else {
            None
        }
    }

    fn ends_concatenation(&self, ch: char) -> (r: bool)
        requires
            self.wf(),
            self.pos < self.chars@.len(),
            ch == self.chars@[self.pos as int],
        ensures
            r == ends_concat(self.chars@, self.syntax, self.pos as int),
    {
        match self.syntax {
            RegexSyntax::Basic => ch == ')' || ch == ']' || (ch == '\\' && self.peek_next() == Some(')')),
            RegexSyntax::Extended => ch == '|' || ch == ')' || ch == ']',
        }
    }

    fn parse(&mut self) -> (r: Result<Ast, RegexError>)
        requires
            old(self).wf(),
            old(self).pos == 0,
            old(self).chars@.len() > 0,
        ensures
            match spec_parse(old(self).chars@, old(self).syntax) {
                Ok(a) => r matches Ok(x) && ast_view(x) == a,
                Err(e) => r == Err::<Ast, RegexError>(e),
            },
    {
        let ast = self.parse_alternation()?;
        if let Some(ch) = self.peek() {
            return Err(RegexError::UnexpectedToken(ch));
        }
        Ok(ast)
    }

    fn parse_alternation(&mut self) -> (r: Result<Ast, RegexError>)
        requires
            old(self).wf(),
        ensures
            final(self).same_input(old(self)),
            r is Ok ==> final(self).pos >= old(self).pos,
            parsed_as(r, sp_alternation(old(self).chars@, old(self).syntax, old(self).pos as int), final(self).pos as int),
        decreases old(self).chars@.len() - old(self).pos, 4int,
    {
        let ghost cs = self.chars@;
        let ghost syn = self.syntax;
        let ghost pos0 = self.pos as int;
        let first = self.parse_concatenation()?;
        if self.syntax == RegexSyntax::Basic {
            return Ok(first);
        }
        let mut branches: Vec<Ast> = Vec::new();
        branches.push(first);
        assert(asts_view(branches@) =~= seq![ast_view(first)]) by {
            lemma_asts_view(branches@);
        }
        while self.peek() == Some('|')
            invariant
                self.wf(),
                self.chars@ == cs,
                self.syntax == syn,
                cs == old(self).chars@,
                syn == old(self).syntax,
                pos0 == old(self).pos,
                syn == RegexSyntax::Extended,
                self.pos >= pos0,
                branches@.len() >= 1,
                sp_alternation(cs, syn, pos0) == sp_alt_rest(cs, syn, self.pos as int, asts_view(branches@)),
            decreases cs.len() - self.pos,
        {
            let ghost p = self.pos as int;
            self.advance();
            let b = self.parse_concatenation()?;
            proof { lemma_asts_view_push(branches@, b); }
            branches.push(b);
        }
        Ok(finish_alternation_exec(branches))
    }

    fn parse_concatenation(&mut self) -> (r: Result<Ast, RegexError>)
        requires
            old(self).wf(),
        ensures
            final(self).same_input(old(self)),
            r is Ok ==> final(self).pos >= old(self).pos,
            parsed_as(r, sp_concat(old(self).chars@, old(self).syntax, old(self).pos as int, Seq::empty()), final(self).pos as int),
        decreases old(self).chars@.len() - old(self).pos, 2int,
    {
        let ghost cs = self.chars@;
        let ghost syn = self.syntax;
        let ghost pos0 = self.pos as int;
        let mut nodes: Vec<Ast> = Vec::new();
        assert(asts_view(nodes@) =~= Seq::<SpecAst>::empty());
        loop
            invariant
                self.wf(),
                self.chars@ == cs,
                self.syntax == syn,
                cs == old(self).chars@,
                syn == old(self).syntax,
                pos0 == old(self).pos,
                self.pos >= pos0,
                sp_concat(cs, syn, pos0, Seq::empty()) == sp_concat(cs, syn, self.pos as int, asts_view(nodes@)),
            ensures
                self.pos >= cs.len() || ends_concat(cs, syn, self.pos as int),
            decreases cs.len() - self.pos,
        {
            let ch = match self.peek() {
                Some(c) => c,
                None => {
                    break;
                },
            };
            if self.ends_concatenation(ch) {
                break;
            }
            let atom = self.parse_atom()?;
            let q = self.parse_quantifier(atom);
            proof { lemma_asts_view_push(nodes@, q); }
            nodes.push(q);
        }
        Ok(finish_concat_exec(nodes))
    }

    fn parse_atom(&mut self) -> (r: Result<Ast, RegexError>)
        requires
            old(self).wf(),
        ensures
            final(self).same_input(old(self)),
            r is Ok ==> final(self).pos > old(self).pos,
            parsed_as(r, sp_atom(old(self).chars@, old(self).syntax, old(self).pos as int), final(self).pos as int),
        decreases old(self).chars@.len() - old(self).pos, 1int,
    {
        let ch = match self.advance() {
            Some(c) => c,
            None => {
                return Err(RegexError::UnexpectedEnd);
            },
        };
        if ch == '.' {
            Ok(Ast::Any)
        } else if ch == '^' {
            Ok(Ast::AnchorStart)
        } else if ch == '$' {
            Ok(Ast::AnchorEnd)
        } else if ch == '[' {
            self.parse_class()
        } else if ch == '(' && self.syntax == RegexSyntax::Extended {
            let inner = match self.parse_alternation() {
                Ok(a) => a,
                Err(e) => {
                    return Err(e);
                },
            };
            if self.advance() != Some(')') {
                return Err(RegexError::UnclosedGroup);
            }
            Ok(Ast::Group(Box::new(inner)))
        } else if ch == '\\' {
            self.parse_escape()
        } else if (ch == '*' || ch == '+' || ch == '?' || ch == '|' || ch == ')') && self.syntax
            == RegexSyntax::Extended {
            Err(RegexError::UnexpectedToken(ch))
        } else {
            Ok(literal_exec(ch))
        }
    }

    fn parse_quantifier(&mut self, node: Ast) -> (r: Ast)
        requires
            old(self).wf(),
        ensures
            final(self).same_input(old(self)),
            (ast_view(r), final(self).pos as int) == sp_quant(old(self).chars@, old(self).syntax, old(self).pos as int, ast_view(node)),
    {
        let ch = match self.peek() {
            Some(c) => c,
            None => {
                return node;
            },
        };
        if self.syntax == RegexSyntax::Basic {
            if ch == '*' {
                self.advance();
                return Ast::Repeat { node: Box::new(node), min: 0, max: None };
            }
            if ch == '\\' {
                if let Some(next) = self.peek_next() {
                    if next == '*' {
                        self.advance();
                        self.advance();
                        return Ast::Repeat { node: Box::new(node), min: 0, max: None };
                    } else if next == '+' {
                        self.advance();
                        self.advance();
                        return Ast::Repeat { node: Box::new(node), min: 1, max: None };
                    } else if next == '?' {
                        self.advance();
                        self.advance();
                        return Ast::Repeat { node: Box::new(node), min: 0, max: Some(1) };
                    } else {
                        return node;
                    }
                }
            }
            return node;
        }
        if ch == '*' {
            self.advance();
            Ast::Repeat { node: Box::new(node), min: 0, max: None }
        } else if ch == '+' {
            self.advance();
            Ast::Repeat { node: Box::new(node), min: 1, max: None }
        } else if ch == '?' {
            self.advance();
            Ast::Repeat { node: Box::new(node), min: 0, max: Some(1) }
        } else {
            node
        }
    }

    fn parse_class(&mut self) -> (r: Result<Ast, RegexError>)
        requires
            old(self).wf(),
        ensures
            final(self).same_input(old(self)),
            r is Ok ==> final(self).pos > old(self).pos,
            parsed_as(r, sp_class(old(self).chars@, old(self).pos as int), final(self).pos as int),
    {
        let ghost cs = self.chars@;
        let ghost syn = self.syntax;
        let ghost pos0 = self.pos as int;
        let mut negated = false;
        let p = self.peek();
        if p == Some('^') || p == Some('!') {
            negated = true;
            self.advance();
        }
        let mut items: Vec<ClassItem> = Vec::new();
        let mut first = true;
        loop
            invariant
                self.wf(),
                self.chars@ == cs,
                self.syntax == syn,
                cs == old(self).chars@,
                syn == old(self).syntax,
                pos0 == old(self).pos,
                self.pos >= pos0,
                sp_class(cs, pos0) == sp_class_loop(cs, self.pos as int, negated, items@, first),
            decreases cs.len() - self.pos,
        {
            let ch = match self.peek() {
                Some(c) => c,
                None => {
                    return Err(RegexError::UnclosedClass);
                },
            };
            if ch == ']' && !first {
                self.advance();
                let class = CharClass { negated, items };
                return Ok(Ast::Class(class));
            }
            let ghost here = self.pos as int;
            first = false;
            let res = if ch == '[' && self.peek_next() == Some(':') {
                self.advance();
                self.advance();
                self.parse_posix_class()
            } else {
                self.parse_class_item()
            };
            match res {
                Ok(item) => {
                    assert(self.pos > here);
                    items.push(item);
                },
                Err(e) => {
                    return Err(e);
                },
            }
        }
    }

    fn parse_posix_class(&mut self) -> (r: Result<ClassItem, RegexError>)
        requires
            old(self).wf(),
        ensures
            final(self).same_input(old(self)),
            r is Ok ==> final(self).pos > old(self).pos,
            match sp_posix(old(self).chars@, old(self).pos as int, old(self).pos as int) {
                Ok((item, p)) => r == Ok::<ClassItem, RegexError>(item) && final(self).pos == p,
                Err(e) => r == Err::<ClassItem, RegexError>(e),
            },
    {
        let ghost cs = self.chars@;
        let ghost start = self.pos as int;
        let mut name: Vec<char> = Vec::new();
        loop
            invariant
                self.wf(),
                self.chars@ == cs,
                cs == old(self).chars@,
                self.syntax == old(self).syntax,
                start <= self.pos,
                start == old(self).pos,
                sp_posix(cs, start, start) == sp_posix(cs, start, self.pos as int),
                name@ == cs.subrange(start, self.pos as int),
            decreases cs.len() - self.pos,
        {
            let ch = match self.peek() {
                Some(c) => c,
                None => {
                    return Err(RegexError::UnclosedClass);
                },
            };
            if ch == ':' && self.peek_two_ahead() == Some(']') {
                self.advance();
                self.advance();
                return match posix_item_exec(&name) {
                    Some(item) => Ok(item),
                    None => Err(RegexError::UnexpectedToken('[')),
                };
            }
            name.push(ch);
            self.advance();
            assert(name@ =~= cs.subrange(start, self.pos as int));
        }
    }

    fn parse_class_item(&mut self) -> (r: Result<ClassItem, RegexError>)
        requires
            old(self).wf(),
        ensures
            final(self).same_input(old(self)),
            match sp_class_item(old(self).chars@, old(self).pos as int) {
                Ok((item, p)) => r == Ok::<ClassItem, RegexError>(item) && final(self).pos == p,
                Err(e) => r == Err::<ClassItem, RegexError>(e),
            },
    {
        let start = self.parse_class_char()?;
        if self.peek() == Some('-') && self.peek_next() != Some(']') {
            self.advance();
            let end = self.parse_class_char()?;
            if start > end {
                return Err(RegexError::InvalidRange(start, end));
            }
            Ok(ClassItem::Range(start, end))
        } else {
            Ok(ClassItem::Single(start))
        }
    }

    fn parse_class_char(&mut self) -> (r: Result<char, RegexError>)
        requires
            old(self).wf(),
        ensures
            final(self).same_input(old(self)),
            match sp_class_char(old(self).chars@, old(self).pos as int) {
                Ok((c, p)) => r == Ok::<char, RegexError>(c) && final(self).pos == p,
                Err(e) => r == Err::<char, RegexError>(e),
            },
    {
        let ch = match self.advance() {
            Some(c) => c,
            None => {
                return Err(RegexError::UnclosedClass);
            },
        };
        if ch == '\\' {
            match self.advance() {
                Some(escaped) => Ok(escaped),
                None => Err(RegexError::UnexpectedEnd),
            }
        } else {
            Ok(ch)
        }
    }

    fn parse_escape(&mut self) -> (r: Result<Ast, RegexError>)
        requires
            old(self).wf(),
        ensures
            final(self).same_input(old(self)),
            r is Ok ==> final(self).pos > old(self).pos,
            parsed_as(r, sp_escape(old(self).chars@, old(self).syntax, old(self).pos as int), final(self).pos as int),
        decreases old(self).chars@.len() - old(self).pos, 0int,
    {
        let ch = match self.advance() {
            Some(c) => c,
            None => {
                return Err(RegexError::UnexpectedEnd);
            },
        };
        if ch == 'd' {
            Ok(single_class_exec(ClassItem::Digit))
        } else if ch == 'w' {
            Ok(single_class_exec(ClassItem::Word))
        } else if ch == 's' {
            Ok(single_class_exec(ClassItem::Space))
        } else if ch == '(' && self.syntax == RegexSyntax::Basic {
            let inner = match self.parse_alternation() {
                Ok(a) => a,
                Err(e) => {
                    return Err(e);
                },
            };
            if self.advance() != Some('\\') {
                return Err(RegexError::UnclosedGroup);
            }
            if self.advance() != Some(')') {
                return Err(RegexError::UnclosedGroup);
            }
            Ok(Ast::Group(Box::new(inner)))
        } else {
            Ok(literal_exec(ch))
        }
    }
}

fn literal_exec(ch: char) -> (r: Ast)
    ensures
        ast_view(r) == SpecAst::Literal(ch),
{
    Ast::Literal(ch)
}

fn single_class_exec(item: ClassItem) -> (r: Ast)
    ensures
        ast_view(r) == single_class(item),
{
    let mut items: Vec<ClassItem> = Vec::new();
    items.push(item);
    assert(items@ =~= seq![item]);
    Ast::Class(CharClass { negated: false, items })
}

impl CharClass {
    pub fn new(negated: bool, items: Vec<ClassItem>) -> (r: Self)
        ensures
            r.spec_negated() == negated,
            r.spec_items() == items@,
    {
        CharClass { negated, items }
    }
}

impl Regex {
    /// Parses `pattern` in the given syntax.
    pub fn new(pattern: &str, syntax: RegexSyntax) -> (r: Result<Self, RegexError>)
        ensures
            match spec_parse(pattern@, syntax) {
                Ok(a) => r matches Ok(x) && x.spec_ast() == a && x.spec_syntax() == syntax,
                Err(e) => r matches Err(x) && x == e,
            },
    {
        let mut parser = Parser::new(pattern, syntax);
        if parser.chars.len() == 0 {
            return Err(RegexError::EmptyPattern);
        }
        let ast = parser.parse()?;
        Ok(Regex { ast, syntax })
    }

    pub fn syntax(&self) -> (r: RegexSyntax)
        ensures
            r == self.spec_syntax(),
    {
        self.syntax
    }

    pub fn ast(&self) -> (r: &Ast)
        ensures
            ast_view(*r) == self.spec_ast(),
    {
        &self.ast
    }

    pub closed spec fn spec_ast(&self) -> SpecAst {
        ast_view(self.ast)
    }

    pub closed spec fn spec_syntax(&self) -> RegexSyntax {
        self.syntax
    }
}

impl CharClass {
    pub closed spec fn spec_negated(&self) -> bool {
        self.negated
    }

    pub closed spec fn spec_items(&self) -> Seq<ClassItem> {
        self.items@
    }
}


// ---------------------------------------------------------------------------
// What a tree matches
// ---------------------------------------------------------------------------

/// Whether `c` has the Unicode `Alphabetic` property.
pub uninterp spec fn alphabetic(c: char) -> bool;

/// Whether `c` is alphabetic or numeric in the Unicode sense.
pub uninterp spec fn alphanumeric(c: char) -> bool;

/// Whether a character outside ASCII has the Unicode `White_Space`
/// property.
pub uninterp spec fn unicode_white_space(c: char) -> bool;

/// Whether `c` has the Unicode `White_Space` property: in ASCII, the space
/// and the characters from tab to carriage return.
pub open spec fn whitespace(c: char) -> bool {
    if (c as u32) < 128 {
        c == ' ' || ('\t' <= c && c <= '\r')
    } else {
        unicode_white_space(c)
    }
}

/// Whether `c` has the Unicode `Lowercase` property.
pub uninterp spec fn lowercase(c: char) -> bool;

/// Whether `c` has the Unicode `Uppercase` property.
pub uninterp spec fn uppercase(c: char) -> bool;

/// `char::is_alphabetic`; its result is named [`alphabetic`].
#[verifier::external_body]
fn char_is_alphabetic(c: char) -> (r: bool)
    ensures
        r == alphabetic(c),
{
    c.is_alphabetic()
}

/// `char::is_alphanumeric`; its result is named [`alphanumeric`].
#[verifier::external_body]
fn char_is_alphanumeric(c: char) -> (r: bool)
    ensures
        r == alphanumeric(c),
{
    c.is_alphanumeric()
}

/// `char::is_whitespace`. Trusted: in ASCII it holds of the space and of
/// tab, line feed, vertical tab, form feed and carriage return, as its
/// documentation lists; elsewhere its result is named
/// [`unicode_white_space`].
#[verifier::external_body]
pub(crate) fn char_is_whitespace(c: char) -> (r: bool)
    ensures
        r == whitespace(c),
        (c as u32) >= 128 ==> r == unicode_white_space(c),
{
    c.is_whitespace()
}

/// `char::is_lowercase`; its result is named [`lowercase`].
#[verifier::external_body]
fn char_is_lowercase(c: char) -> (r: bool)
    ensures
        r == lowercase(c),
{
    c.is_lowercase()
}

/// `char::is_uppercase`; its result is named [`uppercase`].
#[verifier::external_body]
fn char_is_uppercase(c: char) -> (r: bool)
    ensures
        r == uppercase(c),
{
    c.is_uppercase()
}

pub open spec fn item_matches(item: ClassItem, c: char) -> bool {
    match item {
        ClassItem::Single(v) => c == v,
        ClassItem::Range(lo, hi) => lo <= c && c <= hi,
        ClassItem::Digit => '0' <= c && c <= '9',
        ClassItem::Alpha => alphabetic(c),
        ClassItem::Alnum => alphanumeric(c),
        ClassItem::Space => whitespace(c),
        ClassItem::Lower => lowercase(c),
        ClassItem::Upper => uppercase(c),
        ClassItem::Word => alphanumeric(c) || c == '_',
    }
}

/// A bracket class accepts `c` when some item does, or, negated, when none does.
pub open spec fn class_matches(negated: bool, items: Seq<ClassItem>, c: char) -> bool {
    (exists|k: int| 0 <= k < items.len() && item_matches(#[trigger] items[k], c)) != negated
}

/// A negated class accepts exactly the characters that the same class not
/// negated refuses; a class not negated accepts a character exactly when one
/// of its items does (a single character, a range, or a named class).
pub proof fn lemma_negated_class(items: Seq<ClassItem>, c: char)
    ensures
        class_matches(true, items, c) == !class_matches(false, items, c),
        class_matches(false, items, c) <==> exists|k: int| 0 <= k < items.len() && #[trigger] item_matches(items[k], c),
{
}

/// `n` is a position of `cs`: between 0 and its length, both included.
pub open spec fn within(cs: Seq<char>, n: int) -> bool {
    0 <= n <= cs.len()
}

/// Whether `a` matches the characters of `cs` from position `i` up to `j`.
pub open spec fn matches(a: SpecAst, cs: Seq<char>, i: int, j: int) -> bool
    decreases a, 0nat,
{
    match a {
        SpecAst::Empty => j == i,
        SpecAst::Literal(c) => 0 <= i < cs.len() && cs[i] == c && j == i + 1,
        SpecAst::Any => 0 <= i < cs.len() && j == i + 1,
        SpecAst::Class(neg, items) => 0 <= i < cs.len() && class_matches(neg, items, cs[i]) && j == i + 1,
        SpecAst::Concat(nodes) => concat_matches(nodes, nodes.len() as int, cs, i, j),
        SpecAst::Alternate(nodes) => alternate_matches(nodes, nodes.len() as int, cs, i, j),
        SpecAst::Repeat(node, min, max) => exists|k: int|
            #[trigger] within(cs, k) && min <= k && (max matches Some(m) ==> k <= m) && steps(*node, k as nat, cs, i, j),
        SpecAst::AnchorStart => i == 0 && j == i,
        SpecAst::AnchorEnd => i == cs.len() && j == i,
        SpecAst::Group(inner) => matches(*inner, cs, i, j),
    }
}

/// One of the first `n` nodes matches from `i` up to `j`.
pub open spec fn alternate_matches(nodes: Seq<SpecAst>, n: int, cs: Seq<char>, i: int, j: int) -> bool
    decreases nodes, if n <= 0 { 0nat } else { n as nat },
{
    if n <= 0 || n > nodes.len() {
        false
    } else {
        alternate_matches(nodes, n - 1, cs, i, j) || matches(nodes[n - 1], cs, i, j)
    }
}

/// The first `n` nodes, one after another, match from `i` up to `j`.
pub open spec fn concat_matches(nodes: Seq<SpecAst>, n: int, cs: Seq<char>, i: int, j: int) -> bool
    decreases nodes, if n <= 0 { 0nat } else { n as nat },
{
    if n <= 0 || n > nodes.len() {
        n == 0 && j == i
    } else {
        exists|m: int| #[trigger] within(cs, m) && concat_matches(nodes, n - 1, cs, i, m) && matches(nodes[n - 1], cs, m, j)
    }
}

/// `k` matches of `node`, each of them non-empty, lead from `i` to `j`.
pub open spec fn steps(node: SpecAst, k: nat, cs: Seq<char>, i: int, j: int) -> bool
    decreases node, k + 1,
{
    if k == 0 {
        j == i
    } else {
        exists|m: int| #[trigger] within(cs, m) && m < j && steps(node, (k - 1) as nat, cs, i, m) && matches(node, cs, m, j)
    }
}

/// Whether a match of `a` can begin anywhere in `cs`.
pub open spec fn regex_matches(a: SpecAst, cs: Seq<char>) -> bool {
    exists|i: int, j: int| 0 <= i <= cs.len() && #[trigger] matches(a, cs, i, j)
}

/// Trees whose every match must begin at position 0.
pub open spec fn anchored(a: SpecAst) -> bool
    decreases a,
{
    match a {
        SpecAst::AnchorStart => true,
        SpecAst::Concat(nodes) => nodes.len() > 0 && anchored(nodes[0]),
        SpecAst::Group(inner) => anchored(*inner),
        _ => false,
    }
}

/// Every match lies within the input, and never ends before it begins.
pub proof fn lemma_matches_bounds(a: SpecAst, cs: Seq<char>, i: int, j: int)
    requires
        0 <= i <= cs.len(),
        matches(a, cs, i, j),
    ensures
        i <= j <= cs.len(),
    decreases a, 0nat,
{
    match a {
        SpecAst::Concat(nodes) => {
            lemma_concat_bounds(nodes, nodes.len() as int, cs, i, j);
        },
        SpecAst::Alternate(nodes) => {
            lemma_alternate_bounds(nodes, nodes.len() as int, cs, i, j);
        },
        SpecAst::Repeat(node, min, max) => {
            let k = choose|k: int|
                #[trigger] within(cs, k) && min <= k && (max matches Some(m) ==> k <= m) && steps(*node, k as nat, cs, i, j);
            lemma_steps_bounds(*node, k as nat, cs, i, j);
        },
        SpecAst::Group(inner) => {
            lemma_matches_bounds(*inner, cs, i, j);
        },
        _ => {},
    }
}

proof fn lemma_alternate_bounds(nodes: Seq<SpecAst>, n: int, cs: Seq<char>, i: int, j: int)
    requires
        0 <= i <= cs.len(),
        alternate_matches(nodes, n, cs, i, j),
    ensures
        i <= j <= cs.len(),
    decreases nodes, if n <= 0 { 0nat } else { n as nat },
{
    if 0 < n <= nodes.len() {
        if matches(nodes[n - 1], cs, i, j) {
            lemma_matches_bounds(nodes[n - 1], cs, i, j);
        } else {
            lemma_alternate_bounds(nodes, n - 1, cs, i, j);
        }
    }
}

proof fn lemma_concat_bounds(nodes: Seq<SpecAst>, n: int, cs: Seq<char>, i: int, j: int)
    requires
        0 <= i <= cs.len(),
        concat_matches(nodes, n, cs, i, j),
    ensures
        i <= j <= cs.len(),
    decreases nodes, if n <= 0 { 0nat } else { n as nat },
{
    if 0 < n <= nodes.len() {
        let m = choose|m: int| #[trigger] within(cs, m) && concat_matches(nodes, n - 1, cs, i, m) && matches(nodes[n - 1], cs, m, j);
        lemma_concat_bounds(nodes, n - 1, cs, i, m);
        lemma_matches_bounds(nodes[n - 1], cs, m, j);
    }
}

proof fn lemma_steps_bounds(node: SpecAst, k: nat, cs: Seq<char>, i: int, j: int)
    requires
        0 <= i <= cs.len(),
        steps(node, k, cs, i, j),
    ensures
        i + k <= j <= cs.len(),
    decreases node, k + 1,
{
    if k > 0 {
        let m = choose|m: int| #[trigger] within(cs, m) && m < j && steps(node, (k - 1) as nat, cs, i, m) && matches(node, cs, m, j);
        lemma_steps_bounds(node, (k - 1) as nat, cs, i, m);
        lemma_matches_bounds(node, cs, m, j);
    }
}

/// Where `k` steps reach some position, every shorter run of steps reaches one too.
proof fn lemma_steps_prefix(node: SpecAst, k: nat, k2: nat, cs: Seq<char>, i: int, j: int)
    requires
        0 <= i <= cs.len(),
        k <= k2,
        steps(node, k2, cs, i, j),
    ensures
        exists|m: int| #[trigger] within(cs, m) && steps(node, k, cs, i, m),
    decreases k2,
{
    lemma_steps_bounds(node, k2, cs, i, j);
    assert(within(cs, j));
    if k < k2 {
        let m = choose|m: int| #[trigger] within(cs, m) && m < j && steps(node, (k2 - 1) as nat, cs, i, m) && matches(node, cs, m, j);
        lemma_steps_prefix(node, k, (k2 - 1) as nat, cs, i, m);
    }
}

/// A concatenation of at least one node begins with a match of its first node.
proof fn lemma_concat_first(nodes: Seq<SpecAst>, n: int, cs: Seq<char>, i: int, j: int)
    requires
        0 <= i <= cs.len(),
        1 <= n,
        concat_matches(nodes, n, cs, i, j),
    ensures
        exists|m: int| #[trigger] within(cs, m) && matches(nodes[0], cs, i, m),
    decreases n,
{
    let m = choose|m: int| #[trigger] within(cs, m) && concat_matches(nodes, n - 1, cs, i, m) && matches(nodes[n - 1], cs, m, j);
    if n == 1 {
        assert(m == i);
        lemma_matches_bounds(nodes[0], cs, i, j);
        assert(within(cs, j));
    } else {
        lemma_concat_first(nodes, n - 1, cs, i, m);
    }
}

/// A character that the extended syntax reads as itself.
pub open spec fn is_plain_char(c: char) -> bool {
    c != '.' && c != '[' && c != ']' && c != '(' && c != ')' && c != '\\' && c != '*' && c != '+' && c != '?'
        && c != '|' && c != '^' && c != '$'
}

/// The node that matches `c` alone.
pub open spec fn literal_node(c: char) -> SpecAst {
    SpecAst::Literal(c)
}

/// One literal node for each character.
pub open spec fn literal_nodes(p: Seq<char>) -> Seq<SpecAst>
    decreases p.len(),
{
    if p.len() == 0 {
        Seq::empty()
    } else {
        literal_nodes(p.drop_last()).push(literal_node(p.last()))
    }
}

proof fn lemma_literals(p: Seq<char>)
    ensures
        literal_nodes(p).len() == p.len(),
        forall|k: int| 0 <= k < p.len() ==> #[trigger] literal_nodes(p)[k] == SpecAst::Literal(p[k]),

    decreases p.len(),
{
    if p.len() > 0 {
        lemma_literals(p.drop_last());
        assert forall|k: int| 0 <= k < p.len() implies #[trigger] literal_nodes(p)[k] == SpecAst::Literal(p[k]) by {
            if k < p.len() - 1 {
                assert(literal_nodes(p)[k] == literal_nodes(p.drop_last())[k]);
            }
        }
    }
}

/// Whether `p` occurs in `cs` starting at `i`.
pub open spec fn occurs_at(cs: Seq<char>, p: Seq<char>, i: int) -> bool {
    0 <= i && i + p.len() <= cs.len() && cs.subrange(i, i + p.len()) == p
}

proof fn lemma_plain_concat(p: Seq<char>, pos: int, nodes: Seq<SpecAst>)
    requires
        0 <= pos <= p.len(),
        forall|k: int| 0 <= k < p.len() ==> is_plain_char(#[trigger] p[k]),
    ensures
        sp_concat(p, RegexSyntax::Extended, pos, nodes) == Ok::<(SpecAst, int), RegexError>(
            (finish_concat(nodes + literal_nodes(p.subrange(pos, p.len() as int))), p.len() as int),
        ),
    decreases p.len() - pos,
{
    lemma_literals(p.subrange(pos, p.len() as int));
    if pos == p.len() {
        assert(nodes + literal_nodes(p.subrange(pos, p.len() as int)) =~= nodes);
    } else {
        let c = p[pos];
        assert(is_plain_char(c));
        assert(!ends_concat(p, RegexSyntax::Extended, pos));
        assert(sp_atom(p, RegexSyntax::Extended, pos) == Ok::<(SpecAst, int), RegexError>((SpecAst::Literal(c), pos + 1)));
        if pos + 1 < p.len() {
            assert(is_plain_char(p[pos + 1]));
        }
        assert(sp_quant(p, RegexSyntax::Extended, pos + 1, SpecAst::Literal(c)) == (SpecAst::Literal(c), pos + 1));
        lemma_plain_concat(p, pos + 1, nodes.push(SpecAst::Literal(c)));
        lemma_literals(p.subrange(pos + 1, p.len() as int));
        assert(nodes.push(SpecAst::Literal(c)) + literal_nodes(p.subrange(pos + 1, p.len() as int)) =~= nodes + literal_nodes(
            p.subrange(pos, p.len() as int),
        ));
    }
}

proof fn lemma_literals_match(p: Seq<char>, k: int, cs: Seq<char>, i: int, j: int)
    requires
        0 <= k <= p.len(),
        0 <= i <= cs.len(),
    ensures
        concat_matches(literal_nodes(p), k, cs, i, j) <==> (j == i + k && i + k <= cs.len() && forall|t: int|
            0 <= t < k ==> cs[i + t] == #[trigger] p[t]),
    decreases k,
{
    let l = literal_nodes(p);
    lemma_literals(p);
    if k > 0 {
        assert(l[k - 1] == SpecAst::Literal(p[k - 1]));
        if concat_matches(l, k, cs, i, j) {
            let m = choose|m: int| #[trigger] within(cs, m) && concat_matches(l, k - 1, cs, i, m) && matches(l[k - 1], cs, m, j);
            lemma_literals_match(p, k - 1, cs, i, m);
            assert forall|t: int| 0 <= t < k implies cs[i + t] == #[trigger] p[t] by {
                if t < k - 1 {
                    assert(cs[i + t] == p[t]);
                }
            }
        }
        if j == i + k && i + k <= cs.len() && forall|t: int| 0 <= t < k ==> cs[i + t] == #[trigger] p[t] {
            let m = i + k - 1;
            lemma_literals_match(p, k - 1, cs, i, m);
            assert(forall|t: int| 0 <= t < k - 1 ==> cs[i + t] == #[trigger] p[t]);
            assert(cs[m] == p[k - 1]);
            assert(within(cs, m) && concat_matches(l, k - 1, cs, i, m) && matches(l[k - 1], cs, m, j));
        }
    }
}

/// What an optional plain character matches: nothing, or that character.
proof fn lemma_optional_literal_matches(c: char, cs: Seq<char>, i: int, j: int)
    requires
        0 <= i <= cs.len(),
    ensures
        matches(SpecAst::Repeat(Box::new(SpecAst::Literal(c)), 0, Some(1)), cs, i, j) <==> (j == i || (i < cs.len()
            && cs[i] == c && j == i + 1)),
{
    let node = SpecAst::Literal(c);
    let a = SpecAst::Repeat(Box::new(node), 0, Some(1));
    if matches(a, cs, i, j) {
        let k = choose|k: int| #[trigger] within(cs, k) && 0 <= k && k <= 1 && steps(node, k as nat, cs, i, j);
        if k == 1 {
            let m = choose|m: int| #[trigger] within(cs, m) && m < j && steps(node, 0, cs, i, m) && matches(node, cs, m, j);
            assert(m == i);
        }
    }
    if j == i {
        assert(within(cs, 0));
        assert(steps(node, 0, cs, i, j));
    }
    if i < cs.len() && cs[i] == c && j == i + 1 {
        assert(within(cs, i));
        assert(steps(node, 0, cs, i, i));
        assert(matches(node, cs, i, j));
        assert(within(cs, i) && i < j && steps(node, 0, cs, i, i) && matches(node, cs, i, j));
        assert(steps(node, 1, cs, i, j));
        assert(within(cs, 1));
    }
}

/// In the basic syntax, `c\?` (for a character `c` that stands for itself)
/// parses, and matches at any place either nothing or one `c`: the
/// character is optional, so every input has a match.
pub proof fn lemma_basic_optional(c: char, cs: Seq<char>, i: int, j: int)
    requires
        is_plain_char(c),
        0 <= i <= cs.len(),
    ensures
        spec_parse(seq![c, '\\', '?'], RegexSyntax::Basic) is Ok,
        matches(spec_parse(seq![c, '\\', '?'], RegexSyntax::Basic)->Ok_0, cs, i, j) <==> (j == i || (i < cs.len()
            && cs[i] == c && j == i + 1)),
        regex_matches(spec_parse(seq![c, '\\', '?'], RegexSyntax::Basic)->Ok_0, cs),
{
    let p = seq![c, '\\', '?'];
    let syn = RegexSyntax::Basic;
    let opt = SpecAst::Repeat(Box::new(SpecAst::Literal(c)), 0, Some(1));
    assert(!ends_concat(p, syn, 0));
    assert(sp_atom(p, syn, 0) == Ok::<(SpecAst, int), RegexError>((SpecAst::Literal(c), 1)));
    assert(sp_quant(p, syn, 1, SpecAst::Literal(c)) == (opt, 3int));
    assert(sp_concat(p, syn, 3, seq![opt]) == Ok::<(SpecAst, int), RegexError>((opt, 3int)));
    assert(sp_concat(p, syn, 0, Seq::empty()) == Ok::<(SpecAst, int), RegexError>((opt, 3int)));
    assert(sp_alternation(p, syn, 0) == Ok::<(SpecAst, int), RegexError>((opt, 3int)));
    assert(spec_parse(p, syn) == Ok::<SpecAst, RegexError>(opt));
    lemma_optional_literal_matches(c, cs, i, j);
    lemma_optional_literal_matches(c, cs, 0, 0);
    assert(matches(opt, cs, 0, 0));
}

/// In the extended syntax, `c?` means the same: nothing, or one `c`.
pub proof fn lemma_extended_optional(c: char, cs: Seq<char>, i: int, j: int)
    requires
        is_plain_char(c),
        0 <= i <= cs.len(),
    ensures
        spec_parse(seq![c, '?'], RegexSyntax::Extended) is Ok,
        matches(spec_parse(seq![c, '?'], RegexSyntax::Extended)->Ok_0, cs, i, j) <==> (j == i || (i < cs.len()
            && cs[i] == c && j == i + 1)),
{
    let p = seq![c, '?'];
    let syn = RegexSyntax::Extended;
    let opt = SpecAst::Repeat(Box::new(SpecAst::Literal(c)), 0, Some(1));
    assert(!ends_concat(p, syn, 0));
    assert(sp_atom(p, syn, 0) == Ok::<(SpecAst, int), RegexError>((SpecAst::Literal(c), 1)));
    assert(sp_quant(p, syn, 1, SpecAst::Literal(c)) == (opt, 2int));
    assert(sp_concat(p, syn, 2, seq![opt]) == Ok::<(SpecAst, int), RegexError>((opt, 2int)));
    assert(sp_concat(p, syn, 0, Seq::empty()) == Ok::<(SpecAst, int), RegexError>((opt, 2int)));
    assert(sp_alt_rest(p, syn, 2, seq![opt]) == Ok::<(SpecAst, int), RegexError>((opt, 2int)));
    assert(sp_alternation(p, syn, 0) == Ok::<(SpecAst, int), RegexError>((opt, 2int)));
    assert(spec_parse(p, syn) == Ok::<SpecAst, RegexError>(opt));
    lemma_optional_literal_matches(c, cs, i, j);
}

proof fn lemma_steps_literal(c: char, cs: Seq<char>, i: int, j: int, k: nat)
    requires
        0 <= i <= cs.len(),
    ensures
        steps(SpecAst::Literal(c), k, cs, i, j) <==> (j == i + k && j <= cs.len() && forall|t: int|
            i <= t < j ==> #[trigger] cs[t] == c),
    decreases k,
{
    let node = SpecAst::Literal(c);
    if k > 0 {
        if steps(node, k, cs, i, j) {
            let m = choose|m: int| #[trigger] within(cs, m) && m < j && steps(node, (k - 1) as nat, cs, i, m) && matches(
                node,
                cs,
                m,
                j,
            );
            lemma_steps_literal(c, cs, i, m, (k - 1) as nat);
        }
        if j == i + k && j <= cs.len() && forall|t: int| i <= t < j ==> #[trigger] cs[t] == c {
            let m = j - 1;
            lemma_steps_literal(c, cs, i, m, (k - 1) as nat);
            assert(cs[m] == c);
            assert(within(cs, m) && m < j && steps(node, (k - 1) as nat, cs, i, m) && matches(node, cs, m, j));
        }
    }
}

/// What an unbounded repetition of a character matches: a run of at least
/// `min` copies of it.
proof fn lemma_repeat_literal(c: char, min: usize, cs: Seq<char>, i: int, j: int)
    requires
        0 <= i <= cs.len(),
    ensures
        matches(SpecAst::Repeat(Box::new(SpecAst::Literal(c)), min, None), cs, i, j) <==> (i + min <= j <= cs.len()
            && forall|t: int| i <= t < j ==> #[trigger] cs[t] == c),
{
    let node = SpecAst::Literal(c);
    let a = SpecAst::Repeat(Box::new(node), min, None);
    if matches(a, cs, i, j) {
        let k = choose|k: int| #[trigger] within(cs, k) && min <= k && steps(node, k as nat, cs, i, j);
        lemma_steps_literal(c, cs, i, j, k as nat);
    }
    if i + min <= j <= cs.len() && forall|t: int| i <= t < j ==> #[trigger] cs[t] == c {
        let k = j - i;
        lemma_steps_literal(c, cs, i, j, k as nat);
        assert(within(cs, k) && min <= k && steps(node, k as nat, cs, i, j));
    }
}

/// In both syntaxes `c*` matches any run of `c` (none included); in the
/// extended syntax `c+` matches any run of one `c` or more, as `c\+` does in
/// the basic syntax.
pub proof fn lemma_repetitions(c: char, cs: Seq<char>, i: int, j: int)
    requires
        is_plain_char(c),
        0 <= i <= cs.len(),
    ensures
        spec_parse(seq![c, '*'], RegexSyntax::Basic) is Ok,
        matches(spec_parse(seq![c, '*'], RegexSyntax::Basic)->Ok_0, cs, i, j) <==> (i <= j <= cs.len() && forall|t: int|
            i <= t < j ==> #[trigger] cs[t] == c),
        spec_parse(seq![c, '*'], RegexSyntax::Extended) is Ok,
        matches(spec_parse(seq![c, '*'], RegexSyntax::Extended)->Ok_0, cs, i, j) <==> (i <= j <= cs.len()
            && forall|t: int| i <= t < j ==> #[trigger] cs[t] == c),
        spec_parse(seq![c, '+'], RegexSyntax::Extended) is Ok,
        matches(spec_parse(seq![c, '+'], RegexSyntax::Extended)->Ok_0, cs, i, j) <==> (i + 1 <= j <= cs.len()
            && forall|t: int| i <= t < j ==> #[trigger] cs[t] == c),
        spec_parse(seq![c, '\\', '+'], RegexSyntax::Basic) is Ok,
        matches(spec_parse(seq![c, '\\', '+'], RegexSyntax::Basic)->Ok_0, cs, i, j) <==> (i + 1 <= j <= cs.len()
            && forall|t: int| i <= t < j ==> #[trigger] cs[t] == c),
{
    let lit = SpecAst::Literal(c);
    let star = SpecAst::Repeat(Box::new(lit), 0, None);
    let plus = SpecAst::Repeat(Box::new(lit), 1, None);
    let b = RegexSyntax::Basic;
    let e = RegexSyntax::Extended;
    let p1 = seq![c, '*'];
    assert(!ends_concat(p1, b, 0) && !ends_concat(p1, e, 0));
    assert(sp_atom(p1, b, 0) == Ok::<(SpecAst, int), RegexError>((lit, 1)));
    assert(sp_atom(p1, e, 0) == Ok::<(SpecAst, int), RegexError>((lit, 1)));
    assert(sp_quant(p1, b, 1, lit) == (star, 2int));
    assert(sp_quant(p1, e, 1, lit) == (star, 2int));
    assert(sp_concat(p1, b, 2, seq![star]) == Ok::<(SpecAst, int), RegexError>((star, 2int)));
    assert(sp_concat(p1, e, 2, seq![star]) == Ok::<(SpecAst, int), RegexError>((star, 2int)));
    assert(sp_concat(p1, b, 0, Seq::empty()) == Ok::<(SpecAst, int), RegexError>((star, 2int)));
    assert(sp_concat(p1, e, 0, Seq::empty()) == Ok::<(SpecAst, int), RegexError>((star, 2int)));
    assert(sp_alt_rest(p1, e, 2, seq![star]) == Ok::<(SpecAst, int), RegexError>((star, 2int)));
    assert(spec_parse(p1, b) == Ok::<SpecAst, RegexError>(star));
    assert(spec_parse(p1, e) == Ok::<SpecAst, RegexError>(star));
    let p2 = seq![c, '+'];
    assert(!ends_concat(p2, e, 0));
    assert(sp_atom(p2, e, 0) == Ok::<(SpecAst, int), RegexError>((lit, 1)));
    assert(sp_quant(p2, e, 1, lit) == (plus, 2int));
    assert(sp_concat(p2, e, 2, seq![plus]) == Ok::<(SpecAst, int), RegexError>((plus, 2int)));
    assert(sp_concat(p2, e, 0, Seq::empty()) == Ok::<(SpecAst, int), RegexError>((plus, 2int)));
    assert(sp_alt_rest(p2, e, 2, seq![plus]) == Ok::<(SpecAst, int), RegexError>((plus, 2int)));
    assert(spec_parse(p2, e) == Ok::<SpecAst, RegexError>(plus));
    let p3 = seq![c, '\\', '+'];
    assert(!ends_concat(p3, b, 0));
    assert(sp_atom(p3, b, 0) == Ok::<(SpecAst, int), RegexError>((lit, 1)));
    assert(sp_quant(p3, b, 1, lit) == (plus, 3int));
    assert(sp_concat(p3, b, 3, seq![plus]) == Ok::<(SpecAst, int), RegexError>((plus, 3int)));
    assert(sp_concat(p3, b, 0, Seq::empty()) == Ok::<(SpecAst, int), RegexError>((plus, 3int)));
    assert(spec_parse(p3, b) == Ok::<SpecAst, RegexError>(plus));
    lemma_repeat_literal(c, 0, cs, i, j);
    lemma_repeat_literal(c, 1, cs, i, j);
}

/// In the basic syntax, `a c\? b` (three characters that stand for
/// themselves) matches exactly `ab` and `acb`: the optional character may
/// be left out, so every line the pattern without `c\?` matches is matched
/// too (as `colou\?r` matches both `color` and `colour`).
pub proof fn lemma_basic_optional_inside(a: char, c: char, b: char, cs: Seq<char>, i: int, j: int)
    requires
        is_plain_char(a),
        is_plain_char(c),
        is_plain_char(b),
        0 <= i <= cs.len(),
    ensures
        spec_parse(seq![a, c, '\\', '?', b], RegexSyntax::Basic) is Ok,
        matches(spec_parse(seq![a, c, '\\', '?', b], RegexSyntax::Basic)->Ok_0, cs, i, j) <==> (occurs_at(
            cs,
            seq![a, b],
            i,
        ) && j == i + 2) || (occurs_at(cs, seq![a, c, b], i) && j == i + 3),
        occurs_at(cs, seq![a, b], i) ==> regex_matches(spec_parse(seq![a, c, '\\', '?', b], RegexSyntax::Basic)->Ok_0, cs),
        occurs_at(cs, seq![a, c, b], i) ==> regex_matches(spec_parse(seq![a, c, '\\', '?', b], RegexSyntax::Basic)->Ok_0, cs),
{
    let p = seq![a, c, '\\', '?', b];
    let syn = RegexSyntax::Basic;
    let la = SpecAst::Literal(a);
    let lc = SpecAst::Literal(c);
    let lb = SpecAst::Literal(b);
    let opt = SpecAst::Repeat(Box::new(lc), 0, Some(1));
    let nodes = seq![la, opt, lb];
    let ast = SpecAst::Concat(nodes);
    assert(!ends_concat(p, syn, 0));
    assert(!ends_concat(p, syn, 1));
    assert(!ends_concat(p, syn, 4));
    assert(sp_atom(p, syn, 0) == Ok::<(SpecAst, int), RegexError>((la, 1)));
    assert(sp_quant(p, syn, 1, la) == (la, 1int));
    assert(sp_atom(p, syn, 1) == Ok::<(SpecAst, int), RegexError>((lc, 2)));
    assert(sp_quant(p, syn, 2, lc) == (opt, 4int));
    assert(sp_atom(p, syn, 4) == Ok::<(SpecAst, int), RegexError>((lb, 5)));
    assert(sp_quant(p, syn, 5, lb) == (lb, 5int));
    assert(seq![la].push(opt).push(lb) =~= nodes);
    assert(seq![la].push(opt) =~= seq![la, opt]);
    assert(Seq::<SpecAst>::empty().push(la) =~= seq![la]);
    assert(sp_concat(p, syn, 5, nodes) == Ok::<(SpecAst, int), RegexError>((ast, 5int)));
    assert(sp_concat(p, syn, 4, seq![la, opt]) == Ok::<(SpecAst, int), RegexError>((ast, 5int)));
    assert(sp_concat(p, syn, 1, seq![la]) == Ok::<(SpecAst, int), RegexError>((ast, 5int)));
    assert(sp_concat(p, syn, 0, Seq::empty()) == Ok::<(SpecAst, int), RegexError>((ast, 5int)));
    assert(spec_parse(p, syn) == Ok::<SpecAst, RegexError>(ast));
    let ab = seq![a, b];
    let acb = seq![a, c, b];
    assert(nodes.len() == 3 && nodes[0] == la && nodes[1] == opt && nodes[2] == lb);
    reveal_with_fuel(concat_matches, 4);
    assert(ab.len() == 2 && ab[0] == a && ab[1] == b);
    assert(acb.len() == 3 && acb[0] == a && acb[1] == c && acb[2] == b);
    assert forall|i2: int, j2: int| 0 <= i2 <= cs.len() implies (matches(ast, cs, i2, j2) <==> ((occurs_at(cs, ab, i2)
        && j2 == i2 + 2) || (occurs_at(cs, acb, i2) && j2 == i2 + 3))) by {
        if matches(ast, cs, i2, j2) {
            assert(concat_matches(nodes, 3, cs, i2, j2));
            assert(exists|m2: int| #[trigger] within(cs, m2) && concat_matches(nodes, 2, cs, i2, m2) && matches(nodes[2], cs, m2, j2));
            let m2 = choose|m2: int| #[trigger] within(cs, m2) && concat_matches(nodes, 2, cs, i2, m2) && matches(
                nodes[2],
                cs,
                m2,
                j2,
            );
            let m1 = choose|m1: int| #[trigger] within(cs, m1) && concat_matches(nodes, 1, cs, i2, m1) && matches(
                nodes[1],
                cs,
                m1,
                m2,
            );
            let m0 = choose|m0: int| #[trigger] within(cs, m0) && concat_matches(nodes, 0, cs, i2, m0) && matches(
                nodes[0],
                cs,
                m0,
                m1,
            );
            assert(within(cs, m2));
            assert(within(cs, m1));
            assert(m0 == i2);
            assert(matches(la, cs, m0, m1));
            assert(m0 == i2 && m1 == i2 + 1 && cs[i2] == a);
            lemma_optional_literal_matches(c, cs, m1, m2);
            if m2 == m1 {
                assert(cs.subrange(i2, i2 + 2) =~= ab);
                assert(occurs_at(cs, ab, i2) && j2 == i2 + 2);
            } else {
                assert(cs.subrange(i2, i2 + 3) =~= acb);
                assert(occurs_at(cs, acb, i2) && j2 == i2 + 3);
            }
        }
        if occurs_at(cs, ab, i2) && j2 == i2 + 2 {
            assert(cs.subrange(i2, i2 + 2)[0] == a && cs.subrange(i2, i2 + 2)[1] == b);
            let m1 = i2 + 1;
            lemma_optional_literal_matches(c, cs, m1, m1);
            assert(within(cs, i2) && concat_matches(nodes, 0, cs, i2, i2) && matches(nodes[0], cs, i2, m1));
            assert(within(cs, m1) && concat_matches(nodes, 1, cs, i2, m1) && matches(nodes[1], cs, m1, m1));
            assert(within(cs, m1) && concat_matches(nodes, 2, cs, i2, m1) && matches(nodes[2], cs, m1, j2));
            assert(concat_matches(nodes, 3, cs, i2, j2));
            assert(matches(ast, cs, i2, j2));
        }
        if occurs_at(cs, acb, i2) && j2 == i2 + 3 {
            let sub = cs.subrange(i2, i2 + 3);
            assert(sub[0] == a && sub[1] == c && sub[2] == b);
            let m1 = i2 + 1;
            let m2 = i2 + 2;
            lemma_optional_literal_matches(c, cs, m1, m2);
            assert(within(cs, i2) && concat_matches(nodes, 0, cs, i2, i2) && matches(nodes[0], cs, i2, m1));
            assert(within(cs, m1) && concat_matches(nodes, 1, cs, i2, m1) && matches(nodes[1], cs, m1, m2));
            assert(within(cs, m2) && concat_matches(nodes, 2, cs, i2, m2) && matches(nodes[2], cs, m2, j2));
            assert(concat_matches(nodes, 3, cs, i2, j2));
            assert(matches(ast, cs, i2, j2));
        }
    }
    if occurs_at(cs, ab, i) {
        assert(matches(ast, cs, i, i + 2));
    }
    if occurs_at(cs, acb, i) {
        assert(matches(ast, cs, i, i + 3));
    }
}

/// A pattern of plain characters (none of `. [ ] ( ) \ * + ? | ^ $`), in the
/// extended syntax, parses, and matches exactly the inputs that contain it.
pub proof fn lemma_plain_pattern_matches(p: Seq<char>, cs: Seq<char>)
    requires
        p.len() > 0,
        forall|k: int| 0 <= k < p.len() ==> is_plain_char(#[trigger] p[k]),
    ensures
        spec_parse(p, RegexSyntax::Extended) is Ok,
        regex_matches(spec_parse(p, RegexSyntax::Extended)->Ok_0, cs) <==> exists|i: int| #[trigger] occurs_at(cs, p, i),
{
    let n = p.len() as int;
    lemma_plain_concat(p, 0, Seq::empty());
    let l = literal_nodes(p);
    lemma_literals(p);
    lemma_literals(p.subrange(0, n));
    assert(Seq::<SpecAst>::empty() + literal_nodes(p.subrange(0, n)) =~= l);
    let a = finish_concat(l);
    assert(sp_alt_rest(p, RegexSyntax::Extended, n, seq![a]) == Ok::<(SpecAst, int), RegexError>((a, n)));
    assert(sp_alternation(p, RegexSyntax::Extended, 0) == Ok::<(SpecAst, int), RegexError>((a, n)));
    assert(spec_parse(p, RegexSyntax::Extended) == Ok::<SpecAst, RegexError>(a));
    assert forall|i: int, j: int| 0 <= i <= cs.len() implies (matches(a, cs, i, j) <==> (j == i + n && occurs_at(cs, p, i))) by {
        lemma_literals_match(p, n, cs, i, j);
        if n == 1 {
            assert(a == SpecAst::Literal(p[0]));
        }
        if j == i + n && i + n <= cs.len() {
            if forall|t: int| 0 <= t < n ==> cs[i + t] == #[trigger] p[t] {
                assert(cs.subrange(i, i + n) =~= p);
            }
            if cs.subrange(i, i + n) == p {
                assert forall|t: int| 0 <= t < n implies cs[i + t] == #[trigger] p[t] by {
                    assert(cs.subrange(i, i + n)[t] == cs[i + t]);
                }
            }
        }
    }
    if regex_matches(a, cs) {
        let (i, j) = choose|i: int, j: int| 0 <= i <= cs.len() && #[trigger] matches(a, cs, i, j);
        assert(occurs_at(cs, p, i));
    }
    if exists|i: int| #[trigger] occurs_at(cs, p, i) {
        let i = choose|i: int| #[trigger] occurs_at(cs, p, i);
        assert(matches(a, cs, i, i + n));
    }
}

/// A tree that starts with `^` matches only from the beginning of the input.
pub proof fn lemma_anchored_matches_at_start(a: SpecAst, cs: Seq<char>, i: int, j: int)
    requires
        0 <= i <= cs.len(),
        anchored(a),
        matches(a, cs, i, j),
    ensures
        i == 0,
    decreases a,
{
    match a {
        SpecAst::Concat(nodes) => {
            lemma_concat_first(nodes, nodes.len() as int, cs, i, j);
            let m = choose|m: int| #[trigger] within(cs, m) && matches(nodes[0], cs, i, m);
            lemma_anchored_matches_at_start(nodes[0], cs, i, m);
        },
        SpecAst::Group(inner) => {
            lemma_anchored_matches_at_start(*inner, cs, i, j);
        },
        _ => {},
    }
}

// ---------------------------------------------------------------------------
// Matcher: each step computes, for one start position, the set of positions
// at which a match can end, as a table indexed by position.
// ---------------------------------------------------------------------------

fn no_positions(n: usize) -> (r: Vec<bool>)
    requires
        n < usize::MAX,
    ensures
        r@.len() == n + 1,
        forall|j: int| 0 <= j <= n ==> !#[trigger] r@[j],
{
    let mut r: Vec<bool> = Vec::new();
    let mut i: usize = 0;
    while i <= n
        invariant
            n < usize::MAX,
            i <= n + 1,
            r@.len() == i,
            forall|j: int| 0 <= j < i ==> !r@[j],
        decreases n + 1 - i,
    {
        r.push(false);
        i = i + 1;
    }
    r
}

fn position_at(n: usize, p: usize) -> (r: Vec<bool>)
    requires
        n < usize::MAX,
        p <= n,
    ensures
        r@.len() == n + 1,
        forall|j: int| 0 <= j <= n ==> #[trigger] r@[j] == (j == p),
{
    let mut r = no_positions(n);
    r.set(p, true);
    r
}

fn or_into(acc: &mut Vec<bool>, other: &Vec<bool>)
    requires
        old(acc)@.len() == other@.len(),
    ensures
        final(acc)@.len() == old(acc)@.len(),
        forall|j: int| 0 <= j < other@.len() ==> #[trigger] final(acc)@[j] == (old(acc)@[j] || other@[j]),
{
    let ghost init = acc@;
    let mut i: usize = 0;
    while i < other.len()
        invariant
            acc@.len() == other@.len(),
            init.len() == other@.len(),
            i <= other@.len(),
            forall|j: int| 0 <= j < i ==> #[trigger] acc@[j] == (init[j] || other@[j]),
            forall|j: int| i <= j < other@.len() ==> #[trigger] acc@[j] == init[j],
        decreases other@.len() - i,
    {
        if other[i] {
            acc.set(i, true);
        }
        assert(acc@[i as int] == (init[i as int] || other@[i as int]));
        i = i + 1;
    }
}

fn any_set(v: &Vec<bool>) -> (r: bool)
    ensures
        r == exists|j: int| 0 <= j < v@.len() && #[trigger] v@[j],
{
    let mut i: usize = 0;
    while i < v.len()
        invariant
            i <= v@.len(),
            forall|j: int| 0 <= j < i ==> !v@[j],
        decreases v@.len() - i,
    {
        if v[i] {
            return true;
        }
        i = i + 1;
    }
    false
}

impl ClassItem {
    fn matches(&self, c: char) -> (r: bool)
        ensures
            r == item_matches(*self, c),
    {
        match self {
            ClassItem::Single(v) => *v == c,
            ClassItem::Range(lo, hi) => *lo <= c && c <= *hi,
            ClassItem::Digit => '0' <= c && c <= '9',
            ClassItem::Alpha => char_is_alphabetic(c),
            ClassItem::Alnum => char_is_alphanumeric(c),
            ClassItem::Space => char_is_whitespace(c),
            ClassItem::Lower => char_is_lowercase(c),
            ClassItem::Upper => char_is_uppercase(c),
            ClassItem::Word => char_is_alphanumeric(c) || c == '_',
        }
    }
}

impl CharClass {
    /// Whether the class accepts `ch`.
    pub fn matches(&self, ch: char) -> (r: bool)
        ensures
            r == class_matches(self.spec_negated(), self.spec_items(), ch),
    {
        let mut matched = false;
        let mut i: usize = 0;
        while i < self.items.len()
            invariant
                i <= self.items@.len(),
                matched == exists|k: int| 0 <= k < i && item_matches(#[trigger] self.items@[k], ch),
            decreases self.items@.len() - i,
        {
            if self.items[i].matches(ch) {
                matched = true;
            }
            i = i + 1;
        }
        if self.negated {
            !matched
        } else {
            matched
        }
    }
}

/// The positions reached from the marked ones in `from` by one match of
/// `node`; with `strict`, only matches that consume at least one character.
fn extend(node: &Ast, cs: &Vec<char>, from: &Vec<bool>, strict: bool) -> (r: Vec<bool>)
    requires
        cs@.len() < usize::MAX,
        from@.len() == cs@.len() + 1,
    ensures
        r@.len() == cs@.len() + 1,
        forall|j: int|
            0 <= j <= cs@.len() ==> r@[j] == exists|m: int|
                #[trigger] within(cs@, m) && from@[m] && (strict ==> m < j) && matches(ast_view(*node), cs@, m, j),
    decreases *node, 1nat,
{
    let ghost nv = ast_view(*node);
    let n = cs.len();
    let mut r = no_positions(n);
    let mut m: usize = 0;
    while m <= n
        invariant
            n == cs@.len(),
            n < usize::MAX,
            m <= n + 1,
            r@.len() == n + 1,
            from@.len() == n + 1,
            nv == ast_view(*node),
            forall|j: int|
                0 <= j <= n ==> #[trigger] r@[j] == exists|m2: int|
                    #[trigger] within(cs@, m2) && m2 < m && from@[m2] && (strict ==> m2 < j) && matches(nv, cs@, m2, j),
        decreases n + 1 - m,
    {
        if from[m] {
            let hits = match_ast(node, cs, m);
            let ghost before = r@;
            let mut j: usize = 0;
            while j <= n
                invariant
                    n == cs@.len(),
                    n < usize::MAX,
                    m <= n,
                    j <= n + 1,
                    r@.len() == n + 1,
                    before.len() == n + 1,
                    hits@.len() == n + 1,
                    forall|j2: int|
                        0 <= j2 <= n ==> #[trigger] r@[j2] == (before[j2] || (j2 < j && hits@[j2] && (strict ==> m < j2))),
                decreases n + 1 - j,
            {
                if hits[j] && (!strict || m < j) {
                    r.set(j, true);
                }
                j = j + 1;
            }
            assert(within(cs@, m as int));
        }
        m = m + 1;
    }
    r
}

fn match_concat(nodes: &Vec<Ast>, cs: &Vec<char>, pos: usize) -> (r: Vec<bool>)
    requires
        pos <= cs@.len(),
        cs@.len() < usize::MAX,
    ensures
        r@.len() == cs@.len() + 1,
        forall|j: int|
            0 <= j <= cs@.len() ==> r@[j] == concat_matches(
                asts_view(nodes@),
                nodes@.len() as int,
                cs@,
                pos as int,
                j,
            ),
    decreases nodes, 2nat,
{
    let ghost sv = asts_view(nodes@);
    proof {
        lemma_asts_view(nodes@);
    }
    let n = cs.len();
    let mut states = position_at(n, pos);
    let mut t: usize = 0;
    while t < nodes.len()
        invariant
            n == cs@.len(),
            n < usize::MAX,
            pos <= n,
            t <= nodes@.len(),
            states@.len() == n + 1,
            sv == asts_view(nodes@),
            sv.len() == nodes@.len(),
            forall|k: int| 0 <= k < nodes@.len() ==> #[trigger] sv[k] == ast_view(nodes@[k]),
            forall|j: int| 0 <= j <= n ==> #[trigger] states@[j] == concat_matches(sv, t as int, cs@, pos as int, j),
        decreases nodes@.len() - t,
    {
        let next = extend(&nodes[t], cs, &states, false);
        assert(sv[t as int] == ast_view(nodes@[t as int]));
        states = next;
        t = t + 1;
    }
    states
}

fn match_alternate(branches: &Vec<Ast>, cs: &Vec<char>, pos: usize) -> (r: Vec<bool>)
    requires
        pos <= cs@.len(),
        cs@.len() < usize::MAX,
    ensures
        r@.len() == cs@.len() + 1,
        forall|j: int|
            0 <= j <= cs@.len() ==> r@[j] == alternate_matches(
                asts_view(branches@),
                branches@.len() as int,
                cs@,
                pos as int,
                j,
            ),
    decreases branches, 2nat,
{
    let ghost sv = asts_view(branches@);
    proof {
        lemma_asts_view(branches@);
    }
    let n = cs.len();
    let mut acc = no_positions(n);
    let mut b: usize = 0;
    while b < branches.len()
        invariant
            n == cs@.len(),
            n < usize::MAX,
            pos <= n,
            b <= branches@.len(),
            acc@.len() == n + 1,
            sv == asts_view(branches@),
            sv.len() == branches@.len(),
            forall|k: int| 0 <= k < branches@.len() ==> #[trigger] sv[k] == ast_view(branches@[k]),
            forall|j: int| 0 <= j <= n ==> #[trigger] acc@[j] == alternate_matches(sv, b as int, cs@, pos as int, j),
        decreases branches@.len() - b,
    {
        let hits = match_ast(&branches[b], cs, pos);
        assert(sv[b as int] == ast_view(branches@[b as int]));
        or_into(&mut acc, &hits);
        b = b + 1;
    }
    acc
}

fn match_repeat(node: &Ast, min: usize, max: Option<usize>, cs: &Vec<char>, pos: usize) -> (r: Vec<bool>)
    requires
        pos <= cs@.len(),
        cs@.len() < usize::MAX,
    ensures
        r@.len() == cs@.len() + 1,
        forall|j: int|
            0 <= j <= cs@.len() ==> r@[j] == matches(
                SpecAst::Repeat(Box::new(ast_view(*node)), min, max),
                cs@,
                pos as int,
                j,
            ),
    decreases *node, 2nat,
{
    let ghost nv = ast_view(*node);
    let ghost rep = SpecAst::Repeat(Box::new(nv), min, max);
    let n = cs.len();
    let mut frontier = position_at(n, pos);
    let mut results = no_positions(n);
    let mut k: usize = 0;
    loop
        invariant_except_break
            forall|j: int|
                0 <= j <= n ==> #[trigger] results@[j] == exists|k2: int|
                    #[trigger] within(cs@, k2) && k2 < k && min <= k2 && (max matches Some(mx) ==> k2 <= mx)
                        && steps(nv, k2 as nat, cs@, pos as int, j),
        invariant
            n == cs@.len(),
            n < usize::MAX,
            pos <= n,
            k <= n + 1,
            nv == ast_view(*node),
            rep == SpecAst::Repeat(Box::new(nv), min, max),
            frontier@.len() == n + 1,
            results@.len() == n + 1,
            max matches Some(mx) ==> k <= mx,
            forall|j: int| 0 <= j <= n ==> #[trigger] frontier@[j] == steps(nv, k as nat, cs@, pos as int, j),
        ensures
            results@.len() == n + 1,
            forall|j: int| 0 <= j <= n ==> results@[j] == matches(rep, cs@, pos as int, j),
        decreases n + 1 - k,
    {
        if k >= min {
            or_into(&mut results, &frontier);
        }
        let ghost covered = results@;
        assert forall|j: int| 0 <= j <= n implies covered[j] == exists|k2: int|
            #[trigger] within(cs@, k2) && k2 <= k && min <= k2 && (max matches Some(mx) ==> k2 <= mx)
                && steps(nv, k2 as nat, cs@, pos as int, j) by {
            if frontier@[j] && k >= min {
                lemma_steps_bounds(nv, k as nat, cs@, pos as int, j);
                assert(within(cs@, k as int));
            }
        }
        let stop = match max {
            Some(mx) => k >= mx,
            None => false,
        };
        if stop {
            break;
        }
        if !any_set(&frontier) {
            assert forall|j: int| 0 <= j <= n implies results@[j] == matches(rep, cs@, pos as int, j) by {
                if matches(rep, cs@, pos as int, j) {
                    let k2 = choose|k2: int|
                        #[trigger] within(cs@, k2) && min <= k2 && (max matches Some(mx) ==> k2 <= mx)
                            && steps(nv, k2 as nat, cs@, pos as int, j);
                    if k2 > k {
                        lemma_steps_prefix(nv, k as nat, k2 as nat, cs@, pos as int, j);
                        let m = choose|m: int| #[trigger] within(cs@, m) && steps(nv, k as nat, cs@, pos as int, m);
                        assert(frontier@[m]);
                    }
                }
            }
            break;
        }
        proof {
            let j0 = choose|j: int| 0 <= j < frontier@.len() && #[trigger] frontier@[j];
            lemma_steps_bounds(nv, k as nat, cs@, pos as int, j0);
        }
        let next = extend(node, cs, &frontier, true);
        frontier = next;
        k = k + 1;
    }
    results
}

/// The positions at which a tree without sub-trees ends a match begun at `pos`.
fn match_leaf(a: &Ast, cs: &Vec<char>, pos: usize) -> (r: Vec<bool>)
    requires
        pos <= cs@.len(),
        cs@.len() < usize::MAX,
        !(a is Concat || a is Alternate || a is Repeat || a is Group),
    ensures
        r@.len() == cs@.len() + 1,
        forall|j: int| 0 <= j <= cs@.len() ==> #[trigger] r@[j] == matches(ast_view(*a), cs@, pos as int, j),
{
    let n = cs.len();
    let hit = match a {
        Ast::Empty => Some(pos),
        Ast::Literal(expected) => {
            if pos < n && cs[pos] == *expected {
                Some(pos + 1)
            } else {
                None
            }
        },
        Ast::Any => {
            if pos < n {
                Some(pos + 1)
            } else {
                None
            }
        },
        Ast::Class(class) => {
            if pos < n && class.matches(cs[pos]) {
                Some(pos + 1)
            } else {
                None
            }
        },
        Ast::AnchorStart => {
            if pos == 0 {
                Some(pos)
            } else {
                None
            }
        },
        Ast::AnchorEnd => {
            if pos == n {
                Some(pos)
            } else {
                None
            }
        },
        _ => None,
    };
    match hit {
        Some(p) => position_at(n, p),
        None => no_positions(n),
    }
}

fn match_ast(a: &Ast, cs: &Vec<char>, pos: usize) -> (r: Vec<bool>)
    requires
        pos <= cs@.len(),
        cs@.len() < usize::MAX,
    ensures
        r@.len() == cs@.len() + 1,
        forall|j: int| 0 <= j <= cs@.len() ==> #[trigger] r@[j] == matches(ast_view(*a), cs@, pos as int, j),
    decreases *a, 0nat,
{
    match a {
        Ast::Concat(nodes) => {
            proof {
                lemma_asts_view(nodes@);
            }
            match_concat(nodes, cs, pos)
        },
        Ast::Alternate(branches) => {
            proof {
                lemma_asts_view(branches@);
            }
            match_alternate(branches, cs, pos)
        },
        Ast::Repeat { node, min, max } => match_repeat(node, *min, *max, cs, pos),
        Ast::Group(inner) => match_ast(inner, cs, pos),
        _ => match_leaf(a, cs, pos),
    }
}

fn starts_with_anchor(ast: &Ast) -> (r: bool)
    ensures
        r == anchored(ast_view(*ast)),
    decreases *ast,
{
    match ast {
        Ast::AnchorStart => true,
        Ast::Concat(nodes) => {
            proof {
                lemma_asts_view(nodes@);
            }
            nodes.len() > 0 && starts_with_anchor(&nodes[0])
        },
        Ast::Group(inner) => starts_with_anchor(inner),
        _ => false,
    }
}

impl Regex {
    /// Whether some part of `input` matches the pattern.
    pub fn is_match(&self, input: &str) -> (r: bool)
        requires
            input@.len() < usize::MAX,
        ensures
            r == regex_matches(self.spec_ast(), input@),
    {
        let chars = chars_of(input);
        let ghost a = ast_view(self.ast);
        let n = chars.len();
        let anchored_start = starts_with_anchor(&self.ast);
        let last = if anchored_start {
            0
        } else {
            n
        };
        let mut start: usize = 0;
        while start <= last
            invariant
                n == chars@.len(),
                chars@ == input@,
                n < usize::MAX,
                last <= n,
                anchored_start == anchored(a),
                !anchored_start ==> last == n,
                a == ast_view(self.ast),
                start <= last + 1,
                forall|i: int, j: int| 0 <= i < start ==> !matches(a, chars@, i, j),
            decreases last + 1 - start,
        {
            let states = match_ast(&self.ast, &chars, start);
            if any_set(&states) {
                proof {
                    let j0 = choose|j: int| 0 <= j < states@.len() && #[trigger] states@[j];
                    assert(matches(a, chars@, start as int, j0));
                }
                return true;
            }
            assert forall|j: int| !matches(a, chars@, start as int, j) by {
                if matches(a, chars@, start as int, j) {
                    lemma_matches_bounds(a, chars@, start as int, j);
                    assert(states@[j]);
                }
            }
            start = start + 1;
        }
        assert forall|i: int, j: int| 0 <= i <= n implies !matches(a, chars@, i, j) by {
            if matches(a, chars@, i, j) && anchored_start {
                lemma_anchored_matches_at_start(a, chars@, i, j);
            }
        }
        false
    }
}

} // verus!
