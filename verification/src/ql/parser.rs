//! Parser combinators over string slices, and the query language grammar built from them.
//!
//! Logic Expression BNF:
//! ```text
//! EXPR        ::= LOGIC_EXPR
//!
//! LOGIC_EXPR  ::= LOGIC_EXPR "AND" COMP_EXPR
//!               | LOGIC_EXPR "OR" COMP_EXPR
//!               | COMP_EXPR
//!
//! COMP_EXPR   ::= COMP_EXPR "==" TERM
//!               | COMP_EXPR "!=" TERM
//!               | COMP_EXPR "<" TERM
//!               | COMP_EXPR ">" TERM
//!               | TERM
//!
//! TERM        ::= PATH
//!               | LITERAL
//!               | IDENT
//!               | "(" EXPR ")"
//!
//! PATH        ::= IDENT (("." IDENT) | ("[" NUMBER "]"))*
//! ```
//!
//! All infix operators nest to the right, with no precedence between them:
//! `a == b AND c` reads as `==` of `a` and `b AND c`. A path with at least one
//! segment reads as an access of its segments; an expression in parentheses
//! reads as that expression.
use vstd::prelude::*;

use crate::text::{
    is_suffix_of, lemma_prefix_len_where, lemma_prefix_len_where_at, lemma_skip_is_suffix, lemma_suffix_trans, prefix_len_where,
};

verus! {

/// A parser reads a prefix of its input and hands back what it read and the rest.
pub trait Parser {
    type Out: View;

    /// Inputs on which `parse` is defined (everywhere else it would not return).
    spec fn defined_on(&self, s: Seq<char>) -> bool;

    /// What `parse` gives back on `s`: `None` where it fails.
    spec fn spec_parse(&self, s: Seq<char>) -> Option<(<Self::Out as View>::V, Seq<char>)>;

    fn parse<'a>(&self, input: &'a str) -> (r: Result<(Self::Out, &'a str), ()>)
        requires
            self.defined_on(input@),
        ensures
            match r {
                Ok((v, rest)) => self.spec_parse(input@) == Some((v@, rest@)),
                Err(_) => self.spec_parse(input@) is None,
            },
    ;

    /// What a parser leaves over is a suffix of its input: it reads a prefix.
    proof fn lemma_rest_is_suffix(&self, s: Seq<char>)
        ensures
            self.spec_parse(s) matches Some((_, rest)) ==> is_suffix_of(rest, s),
    ;
}

/// A parser that accepts `c` as a whole input of one character.
pub open spec fn accepts_char<P: Parser>(p: P, c: char) -> bool {
    p.spec_parse(seq![c]) is Some
}

/// A parser that, on an input of one character, gives back that character
/// and nothing left over wherever it succeeds.
pub open spec fn gives_back_char<P: Parser<Out = char>>(p: P) -> bool {
    forall|c: char|
        #[trigger] p.spec_parse(seq![c]) matches Some((d, rest)) ==> d == c && rest.len() == 0
}

/// A parser of one character that gives back the character it read and is
/// defined on every input of one character.
pub open spec fn reads_one_char<P: Parser<Out = char>>(p: P) -> bool {
    &&& gives_back_char(p)
    &&& forall|c: char| #[trigger] p.defined_on(seq![c])
}

// ---------------------------------------------------------------------------
// Character classes

pub open spec fn is_letter(c: char) -> bool {
    ('a' <= c && c <= 'z') || ('A' <= c && c <= 'Z')
}

pub open spec fn is_digit(c: char) -> bool {
    '0' <= c && c <= '9'
}

pub open spec fn is_symbol(c: char) -> bool {
    c == '[' || c == ']' || c == '{' || c == '}' || c == '(' || c == ')' || c == '<' || c == '>'
        || c == '=' || c == '|' || c == '.' || c == ',' || c == ';' || c == '-' || c == '+'
        || c == '*' || c == '?' || c == '\n' || c == '\t' || c == '\r'
}

pub open spec fn is_ident_sym(c: char) -> bool {
    c == '_' || c == '@' || c == '$' || c == '='
}

/// A parser of one character out of a set of inclusive character ranges.
pub struct PatternParser {
    pub ranges: Vec<(char, char)>,
}

impl PatternParser {
    pub open spec fn matches(&self, c: char) -> bool {
        exists|i: int| 0 <= i < self.ranges@.len() && #[trigger] self.ranges@[i].0 <= c && c <= self.ranges@[i].1
    }

    pub fn matches_exec(&self, c: char) -> (b: bool)
        ensures
            b == self.matches(c),
    {
        let mut i: usize = 0;
        while i < self.ranges.len()
            invariant
                i <= self.ranges@.len(),
                forall|j: int| 0 <= j < i ==> !(#[trigger] self.ranges@[j].0 <= c && c <= self.ranges@[j].1),
            decreases self.ranges@.len() - i,
        {
            let (lo, hi) = self.ranges[i];
            if lo <= c && c <= hi {
                return true;
            }
            i = i + 1;
        }
        false
    }
}

impl Parser for PatternParser {
    type Out = char;

    open spec fn defined_on(&self, s: Seq<char>) -> bool {
        true
    }

    open spec fn spec_parse(&self, s: Seq<char>) -> Option<(char, Seq<char>)> {
        if s.len() > 0 && self.matches(s[0]) {
            Some((s[0], s.drop_first()))
        } else {
            None
        }
    }

    proof fn lemma_rest_is_suffix(&self, s: Seq<char>) {
        if s.len() > 0 {
            lemma_skip_is_suffix(s, 1);
        }
    }

    fn parse<'a>(&self, input: &'a str) -> (r: Result<(char, &'a str), ()>) {
        let n = input.unicode_len();
        if n == 0 {
            return Err(());
        }
        let c = input.get_char(0);
        if self.matches_exec(c) {
            let rest = input.substring_char(1, n);
            assert(rest@ =~= input@.drop_first());
            Ok((c, rest))
        } else {
            Err(())
        }
    }
}

/// Builds a parser of one character out of the given inclusive ranges
/// (a one-character pattern `'x'` is the range `('x', 'x')`).
pub fn parser_from_patterns(ranges: Vec<(char, char)>) -> (r: PatternParser)
    ensures
        r.ranges@ == ranges@,
{
    PatternParser { ranges }
}

/// A parser of one ASCII letter.
pub fn letter_parser() -> (r: PatternParser)
    ensures
        forall|c: char| #[trigger] r.matches(c) <==> is_letter(c),
{
    let r = parser_from_patterns(vec![('a', 'z'), ('A', 'Z')]);
    assert forall|c: char| #[trigger] r.matches(c) <==> is_letter(c) by {
        if ('a' <= c && c <= 'z') {
            assert(r.ranges@[0].0 <= c && c <= r.ranges@[0].1);
        }
        if ('A' <= c && c <= 'Z') {
            assert(r.ranges@[1].0 <= c && c <= r.ranges@[1].1);
        }
    }
    r
}

/// A parser of one decimal digit.
pub fn number_parser() -> (r: PatternParser)
    ensures
        forall|c: char| #[trigger] r.matches(c) <==> is_digit(c),
{
    let r = parser_from_patterns(vec![('0', '9')]);
    assert forall|c: char| #[trigger] r.matches(c) <==> is_digit(c) by {
        if is_digit(c) {
            assert(r.ranges@[0].0 <= c && c <= r.ranges@[0].1);
        }
    }
    r
}

/// A parser of one punctuation or control character of the query language.
pub fn symbol_parser() -> (r: PatternParser)
    ensures
        forall|c: char| #[trigger] r.matches(c) <==> is_symbol(c),
{
    let r = parser_from_patterns(vec![
        ('[', '['), (']', ']'), ('{', '{'), ('}', '}'), ('(', '('), (')', ')'), ('<', '<'),
        ('>', '>'), ('=', '='), ('|', '|'), ('.', '.'), (',', ','), (';', ';'), ('-', '-'),
        ('+', '+'), ('*', '*'), ('?', '?'), ('\n', '\n'), ('\t', '\t'), ('\r', '\r'),
    ]);
    assert forall|c: char| #[trigger] r.matches(c) <==> is_symbol(c) by {
        if is_symbol(c) {
            let i: int = if c == '[' { 0 } else if c == ']' { 1 } else if c == '{' { 2 } else if c == '}' { 3 }
                else if c == '(' { 4 } else if c == ')' { 5 } else if c == '<' { 6 } else if c == '>' { 7 }
                else if c == '=' { 8 } else if c == '|' { 9 } else if c == '.' { 10 } else if c == ',' { 11 }
                else if c == ';' { 12 } else if c == '-' { 13 } else if c == '+' { 14 } else if c == '*' { 15 }
                else if c == '?' { 16 } else if c == '\n' { 17 } else if c == '\t' { 18 } else { 19 };
            assert(r.ranges@[i].0 <= c && c <= r.ranges@[i].1);
        }
    }
    r
}

/// A parser of one of the non-letter characters allowed in identifiers.
pub fn ident_sym_parser() -> (r: PatternParser)
    ensures
        forall|c: char| #[trigger] r.matches(c) <==> is_ident_sym(c),
{
    let r = parser_from_patterns(vec![('_', '_'), ('@', '@'), ('$', '$'), ('=', '=')]);
    assert forall|c: char| #[trigger] r.matches(c) <==> is_ident_sym(c) by {
        if is_ident_sym(c) {
            let i: int = if c == '_' { 0 } else if c == '@' { 1 } else if c == '$' { 2 } else { 3 };
            assert(r.ranges@[i].0 <= c && c <= r.ranges@[i].1);
        }
    }
    r
}

/// A parser of one character: the first character of `target`.
pub struct ByCharParser {
    pub target: &'static str,
}

impl Parser for ByCharParser {
    type Out = char;

    open spec fn defined_on(&self, s: Seq<char>) -> bool {
        true
    }

    open spec fn spec_parse(&self, s: Seq<char>) -> Option<(char, Seq<char>)> {
        if self.target@.len() > 0 && s.len() > 0 && s[0] == self.target@[0] {
            Some((s[0], s.drop_first()))
        } else {
            None
        }
    }

    proof fn lemma_rest_is_suffix(&self, s: Seq<char>) {
        if s.len() > 0 {
            lemma_skip_is_suffix(s, 1);
        }
    }

    fn parse<'a>(&self, input: &'a str) -> (r: Result<(char, &'a str), ()>) {
        if self.target.unicode_len() == 0 {
            return Err(());
        }
        let target_char = self.target.get_char(0);
        let n = input.unicode_len();
        if n == 0 {
            return Err(());
        }
        let ch = input.get_char(0);
        if target_char == ch {
            let rest = input.substring_char(1, n);
            assert(rest@ =~= input@.drop_first());
            Ok((ch, rest))
        } else {
            Err(())
        }
    }
}

/// A parser of the first character of `target` (it fails on every input
/// where `target` is empty).
pub fn by_char_parser(target: &'static str) -> (r: ByCharParser)
    ensures
        r.target == target,
{
    ByCharParser { target }
}

/// Tries the first parser and, where it fails, the second on the same input.
pub struct Either<P1, P2> {
    pub first: P1,
    pub second: P2,
}

impl<P1: Parser, P2: Parser<Out = P1::Out>> Parser for Either<P1, P2> {
    type Out = P1::Out;

    open spec fn defined_on(&self, s: Seq<char>) -> bool {
        &&& self.first.defined_on(s)
        &&& self.first.spec_parse(s) is None ==> self.second.defined_on(s)
    }

    open spec fn spec_parse(&self, s: Seq<char>) -> Option<(<Self::Out as View>::V, Seq<char>)> {
        match self.first.spec_parse(s) {
            Some(r) => Some(r),
            None => self.second.spec_parse(s),
        }
    }

    proof fn lemma_rest_is_suffix(&self, s: Seq<char>) {
        self.first.lemma_rest_is_suffix(s);
        self.second.lemma_rest_is_suffix(s);
    }

    fn parse<'a>(&self, input: &'a str) -> (r: Result<(Self::Out, &'a str), ()>) {
        match self.first.parse(input) {
            Ok(r) => Ok(r),
            Err(_) => self.second.parse(input),
        }
    }
}

/// The parser that gives back what `p1` gives back where `p1` succeeds, and
/// what `p2` gives back on the same input elsewhere.
pub fn either_parser<P1: Parser, P2: Parser<Out = P1::Out>>(p1: P1, p2: P2) -> (r: Either<P1, P2>)
    ensures
        r.first == p1,
        r.second == p2,
{
    Either { first: p1, second: p2 }
}

/// The number of leading characters of `s` that `p` accepts one by one.
pub open spec fn accepted_prefix_len<P: Parser>(p: P, s: Seq<char>) -> nat
    decreases s.len(),
{
    if s.len() > 0 && accepts_char(p, s[0]) {
        1 + accepted_prefix_len(p, s.drop_first())
    } else {
        0
    }
}

pub proof fn lemma_accepted_prefix_len<P: Parser>(p: P, s: Seq<char>, i: int)
    requires
        0 <= i <= s.len(),
        forall|j: int| 0 <= j < i ==> accepts_char(p, #[trigger] s[j]),
        i == s.len() || !accepts_char(p, s[i]),
    ensures
        accepted_prefix_len(p, s) == i,
    decreases i,
{
    if i > 0 {
        let t = s.drop_first();
        assert forall|j: int| 0 <= j < i - 1 implies accepts_char(p, #[trigger] t[j]) by {
            assert(t[j] == s[j + 1]);
        }
        if i < s.len() {
            assert(t[i - 1] == s[i]);
        }
        lemma_accepted_prefix_len(p, t, i - 1);
        assert(accepts_char(p, s[0]));
    }
}

pub proof fn lemma_accepted_prefix_len_bound<P: Parser>(p: P, s: Seq<char>)
    ensures
        accepted_prefix_len(p, s) <= s.len(),
        forall|j: int| 0 <= j < accepted_prefix_len(p, s) ==> accepts_char(p, #[trigger] s[j]),
        accepted_prefix_len(p, s) < s.len() ==> !accepts_char(p, s[accepted_prefix_len(p, s) as int]),
    decreases s.len(),
{
    if s.len() > 0 && accepts_char(p, s[0]) {
        let t = s.drop_first();
        lemma_accepted_prefix_len_bound(p, t);
        assert forall|j: int| 0 <= j < accepted_prefix_len(p, s) implies accepts_char(p, #[trigger] s[j]) by {
            if j > 0 {
                assert(s[j] == t[j - 1]);
            }
        }
        if accepted_prefix_len(p, s) < s.len() {
            assert(s[accepted_prefix_len(p, s) as int] == t[accepted_prefix_len(p, t) as int]);
        }
    }
}

/// Applies a one-character parser to each character in turn, as long as it
/// succeeds, and collects what it read.
pub struct SeqChars<P> {
    pub p: P,
}

impl<P: Parser<Out = char>> Parser for SeqChars<P> {
    type Out = String;

    /// Defined where `p` gives back the characters it reads, and is defined on
    /// each character it is run on: those it accepts and the first it refuses.
    open spec fn defined_on(&self, s: Seq<char>) -> bool {
        &&& gives_back_char(self.p)
        &&& forall|j: int|
            0 <= j < s.len() && j <= accepted_prefix_len(self.p, s) ==> self.p.defined_on(
                seq![#[trigger] s[j]],
            )
    }

    open spec fn spec_parse(&self, s: Seq<char>) -> Option<(Seq<char>, Seq<char>)> {
        let k = accepted_prefix_len(self.p, s);
        Some((s.take(k as int), s.skip(k as int)))
    }

    proof fn lemma_rest_is_suffix(&self, s: Seq<char>) {
        lemma_accepted_prefix_len_bound(self.p, s);
        lemma_skip_is_suffix(s, accepted_prefix_len(self.p, s) as int);
    }

    fn parse<'a>(&self, input: &'a str) -> (r: Result<(String, &'a str), ()>) {
        let n = input.unicode_len();
        let mut i: usize = 0;
        while i < n
            invariant_except_break
                i <= n,
                n == input@.len(),
                self.defined_on(input@),
                forall|j: int| 0 <= j < i ==> accepts_char(self.p, #[trigger] input@[j]),
            ensures
                i <= n,
                n == input@.len(),
                forall|j: int| 0 <= j < i ==> accepts_char(self.p, #[trigger] input@[j]),
                i == n || !accepts_char(self.p, input@[i as int]),
            decreases n - i,
        {
            let one = input.substring_char(i, i + 1);
            assert(one@ =~= seq![input@[i as int]]);
            proof {
                lemma_accepted_prefix_len_bound(self.p, input@);
                if i > accepted_prefix_len(self.p, input@) {
                    let k = accepted_prefix_len(self.p, input@) as int;
                    assert(accepts_char(self.p, input@[k]));
                }
            }
            match self.p.parse(one) {
                Ok(_) => {
                    i = i + 1;
                },
                Err(_) => {
                    break;
                },
            }
        }
        proof {
            lemma_accepted_prefix_len(self.p, input@, i as int);
        }
        let collected = input.substring_char(0, i).to_owned();
        let rest = input.substring_char(i, n);
        assert(collected@ =~= input@.take(i as int));
        assert(rest@ =~= input@.skip(i as int));
        Ok((collected, rest))
    }
}

/// The parser that reads the longest prefix whose every character `p` accepts.
pub fn seq_parser_chars<P: Parser<Out = char>>(p: P) -> (r: SeqChars<P>)
    ensures
        r.p == p,
{
    SeqChars { p }
}

/// Runs a first parser, drops what it read, and runs the second on the rest.
pub struct Prefixed<P, S> {
    pub prefix: P,
    pub parser: S,
}

impl<P: Parser, S: Parser> Parser for Prefixed<P, S> {
    type Out = S::Out;

    open spec fn defined_on(&self, s: Seq<char>) -> bool {
        &&& self.prefix.defined_on(s)
        &&& self.prefix.spec_parse(s) matches Some((_, rest)) ==> self.parser.defined_on(rest)
    }

    open spec fn spec_parse(&self, s: Seq<char>) -> Option<(<Self::Out as View>::V, Seq<char>)> {
        match self.prefix.spec_parse(s) {
            Some((_, rest)) => self.parser.spec_parse(rest),
            None => None,
        }
    }

    proof fn lemma_rest_is_suffix(&self, s: Seq<char>) {
        self.prefix.lemma_rest_is_suffix(s);
        if let Some((_, rest)) = self.prefix.spec_parse(s) {
            self.parser.lemma_rest_is_suffix(rest);
            if let Some((_, rest2)) = self.parser.spec_parse(rest) {
                lemma_suffix_trans(rest2, rest, s);
            }
        }
    }

    fn parse<'a>(&self, input: &'a str) -> (r: Result<(Self::Out, &'a str), ()>) {
        match self.prefix.parse(input) {
            Ok((_, rest)) => self.parser.parse(rest),
            Err(()) => Err(()),
        }
    }
}

/// The parser that runs `prefix`, then `parser` on what follows it.
pub fn prefix_parser<P: Parser, S: Parser>(prefix: P, parser: S) -> (r: Prefixed<P, S>)
    ensures
        r.prefix == prefix,
        r.parser == parser,
{
    Prefixed { prefix, parser }
}

/// A one-character parser gives back the character it read.
pub proof fn lemma_pattern_reads_one_char(p: PatternParser)
    ensures
        reads_one_char(p),
        forall|c: char| accepts_char(p, c) <==> p.matches(c),
{
    assert forall|c: char| accepts_char(p, c) <==> p.matches(c) by {
        assert(seq![c][0] == c);
    }
}

pub proof fn lemma_either_reads_one_char<P1: Parser<Out = char>, P2: Parser<Out = char>>(p1: P1, p2: P2)
    requires
        reads_one_char(p1),
        reads_one_char(p2),
    ensures
        reads_one_char(Either { first: p1, second: p2 }),
        forall|c: char| accepts_char(Either { first: p1, second: p2 }, c) <==> accepts_char(p1, c) || accepts_char(p2, c),
{
    let e = Either { first: p1, second: p2 };
    assert forall|c: char| #[trigger] e.defined_on(seq![c]) by {
        assert(p1.defined_on(seq![c]));
        assert(p2.defined_on(seq![c]));
    }
    assert forall|c: char| #[trigger] e.spec_parse(seq![c]) matches Some((d, rest)) ==> d == c && rest.len() == 0 by {
        assert(p1.spec_parse(seq![c]) matches Some((d, rest)) ==> d == c && rest.len() == 0);
        assert(p2.spec_parse(seq![c]) matches Some((d, rest)) ==> d == c && rest.len() == 0);
    }
}

pub proof fn lemma_accepted_prefix_len_where<P: Parser>(p: P, s: Seq<char>, f: spec_fn(char) -> bool)
    requires
        forall|c: char| accepts_char(p, c) <==> #[trigger] f(c),
    ensures
        accepted_prefix_len(p, s) == prefix_len_where(s, f),
    decreases s.len(),
{
    if s.len() > 0 {
        lemma_accepted_prefix_len_where(p, s.drop_first(), f);
        assert(accepts_char(p, s[0]) <==> f(s[0]));
    }
}

// ---------------------------------------------------------------------------
// The syntax tree

/// Operators of the query language.
#[derive(Debug, PartialEq, Eq, Structural, Clone, Copy)]
pub enum QlASTOp {
    // Comparison
    EQ,  // ==
    NEQ,  // !=
    LT,  // <
    GT,  // >
    // Logical
    AND,
    OR,
}

impl View for QlASTOp {
    type V = QlASTOp;

    open spec fn view(&self) -> QlASTOp {
        *self
    }
}

#[derive(Debug, PartialEq)]
pub enum QlASTLiteral {
    QlText(String),
    QlNumber(u32),
}

#[derive(Debug, PartialEq)]
pub enum QlExpr {
    // AND | OR
    BinaryInfix(QlASTOp, Box<QlASTNode>, Box<QlASTNode>),
    // NOT
    UnaryLogical(QlASTOp, Box<QlASTNode>),
    Access(Box<QlASTNode>, Vec<Box<QlASTNode>>),
    // Single value expression as literal(integer/string) or identifier.
    Term(Box<QlASTNode>),
}

#[derive(Debug, PartialEq)]
pub enum QlASTNode {
    QlLiteral(QlASTLiteral),
    QlIdent(String),
    QlNodeExpr(QlExpr),
}

/// The mathematical value of a `QlASTLiteral`.
pub enum SpecLiteral {
    Text(Seq<char>),
    Number(u32),
}

/// The mathematical value of a `QlExpr`.
pub enum SpecExpr {
    BinaryInfix(QlASTOp, Box<SpecNode>, Box<SpecNode>),
    UnaryLogical(QlASTOp, Box<SpecNode>),
    Access(Box<SpecNode>, Seq<SpecNode>),
    Term(Box<SpecNode>),
}

/// The mathematical value of a `QlASTNode`.
pub enum SpecNode {
    Literal(SpecLiteral),
    Ident(Seq<char>),
    NodeExpr(SpecExpr),
}

pub open spec fn literal_view(l: QlASTLiteral) -> SpecLiteral {
    match l {
        QlASTLiteral::QlText(t) => SpecLiteral::Text(t@),
        QlASTLiteral::QlNumber(n) => SpecLiteral::Number(n),
    }
}

pub open spec fn node_view(n: QlASTNode) -> SpecNode
    decreases n,
{
    match n {
        QlASTNode::QlLiteral(l) => SpecNode::Literal(literal_view(l)),
        QlASTNode::QlIdent(s) => SpecNode::Ident(s@),
        QlASTNode::QlNodeExpr(e) => SpecNode::NodeExpr(expr_view(e)),
    }
}

pub open spec fn expr_view(e: QlExpr) -> SpecExpr
    decreases e,
{
    match e {
        QlExpr::BinaryInfix(op, a, b) => SpecExpr::BinaryInfix(op, Box::new(node_view(*a)), Box::new(node_view(*b))),
        QlExpr::UnaryLogical(op, a) => SpecExpr::UnaryLogical(op, Box::new(node_view(*a))),
        QlExpr::Access(a, v) => SpecExpr::Access(Box::new(node_view(*a)), nodes_view(v@)),
        QlExpr::Term(a) => SpecExpr::Term(Box::new(node_view(*a))),
    }
}

pub open spec fn nodes_view(v: Seq<Box<QlASTNode>>) -> Seq<SpecNode>
    decreases v,
{
    if v.len() == 0 {
        Seq::empty()
    } else {
        nodes_view(v.drop_last()).push(node_view(*v.last()))
    }
}

impl View for QlASTLiteral {
    type V = SpecLiteral;

    open spec fn view(&self) -> SpecLiteral {
        literal_view(*self)
    }
}

impl View for QlExpr {
    type V = SpecExpr;

    open spec fn view(&self) -> SpecExpr {
        expr_view(*self)
    }
}

impl View for QlASTNode {
    type V = SpecNode;

    open spec fn view(&self) -> SpecNode {
        node_view(*self)
    }
}

// ---------------------------------------------------------------------------
// Terms

pub open spec fn is_ident_char(c: char) -> bool {
    is_ident_sym(c) || is_letter(c)
}

pub open spec fn is_literal_char(c: char) -> bool {
    is_symbol(c) || is_digit(c) || is_letter(c)
}

/// An identifier: the longest prefix of identifier characters (possibly empty).
pub open spec fn spec_identifier(s: Seq<char>) -> (SpecNode, Seq<char>) {
    let k = prefix_len_where(s, |c: char| is_ident_char(c));
    (SpecNode::Ident(s.take(k as int)), s.skip(k as int))
}

/// A string literal: a single quote, the longest run of literal characters,
/// and a closing single quote.
pub open spec fn spec_string_literal(s: Seq<char>) -> Option<(SpecNode, Seq<char>)> {
    if s.len() > 0 && s[0] == '\'' {
        let t = s.drop_first();
        let k = prefix_len_where(t, |c: char| is_literal_char(c));
        let rest = t.skip(k as int);
        if rest.len() > 0 && rest[0] == '\'' {
            Some((SpecNode::Literal(SpecLiteral::Text(t.take(k as int))), rest.drop_first()))
        } else {
            None
        }
    } else {
        None
    }
}

/// The value of a sequence of decimal digits.
pub open spec fn digits_value(d: Seq<char>) -> nat
    decreases d.len(),
{
    if d.len() == 0 {
        0
    } else {
        digits_value(d.drop_last()) * 10 + (d.last() as nat - '0' as nat) as nat
    }
}

/// A number literal: the longest run of decimal digits, which must be
/// non-empty and denote a value that fits in a `u32`.
pub open spec fn spec_number_literal(s: Seq<char>) -> Option<(SpecNode, Seq<char>)> {
    let k = prefix_len_where(s, |c: char| is_digit(c));
    let v = digits_value(s.take(k as int));
    if k > 0 && v <= u32::MAX {
        Some((SpecNode::Literal(SpecLiteral::Number(v as u32)), s.skip(k as int)))
    } else {
        None
    }
}

/// The input with one leading space removed, if it starts with one.
pub open spec fn spec_skip_space(s: Seq<char>) -> Seq<char> {
    if s.len() > 0 && s[0] == ' ' {
        s.drop_first()
    } else {
        s
    }
}

pub proof fn lemma_skip_space_rest(s: Seq<char>)
    ensures
        is_suffix_of(spec_skip_space(s), s),
{
    lemma_skip_is_suffix(s, 0);
    assert(s.skip(0) =~= s);
    if s.len() > 0 {
        lemma_skip_is_suffix(s, 1);
    }
}

pub proof fn lemma_identifier_rest(s: Seq<char>)
    ensures
        is_suffix_of(spec_identifier(s).1, s),
{
    lemma_prefix_len_where(s, |c: char| is_ident_char(c));
    lemma_skip_is_suffix(s, prefix_len_where(s, |c: char| is_ident_char(c)) as int);
}

pub proof fn lemma_string_literal_rest(s: Seq<char>)
    ensures
        spec_string_literal(s) matches Some((_, rest)) ==> is_suffix_of(rest, s),
{
    if s.len() > 0 {
        let t = s.drop_first();
        let k = prefix_len_where(t, |c: char| is_literal_char(c));
        lemma_prefix_len_where(t, |c: char| is_literal_char(c));
        if t.skip(k as int).len() > 0 {
            assert(t.skip(k as int).drop_first() =~= s.skip((k + 2) as int));
            lemma_skip_is_suffix(s, (k + 2) as int);
        }
    }
}

pub proof fn lemma_number_literal_rest(s: Seq<char>)
    ensures
        spec_number_literal(s) matches Some((_, rest)) ==> is_suffix_of(rest, s),
{
    lemma_prefix_len_where(s, |c: char| is_digit(c));
    lemma_skip_is_suffix(s, prefix_len_where(s, |c: char| is_digit(c)) as int);
}

/// Reads an identifier: it never fails, and reads nothing where the input
/// does not start with an identifier character.
pub struct IdentifierParser;

impl Parser for IdentifierParser {
    type Out = QlASTNode;

    open spec fn defined_on(&self, s: Seq<char>) -> bool {
        true
    }

    open spec fn spec_parse(&self, s: Seq<char>) -> Option<(SpecNode, Seq<char>)> {
        Some(spec_identifier(s))
    }

    proof fn lemma_rest_is_suffix(&self, s: Seq<char>) {
        lemma_identifier_rest(s);
    }

    fn parse<'a>(&self, input: &'a str) -> (r: Result<(QlASTNode, &'a str), ()>) {
        let sym = ident_sym_parser();
        let letter = letter_parser();
        proof {
            lemma_pattern_reads_one_char(sym);
            lemma_pattern_reads_one_char(letter);
            lemma_either_reads_one_char(sym, letter);
        }
        let ident_chars_parser = seq_parser_chars(either_parser(sym, letter));
        proof {
            lemma_accepted_prefix_len_where(ident_chars_parser.p, input@, |c: char| is_ident_char(c));
        }
        match ident_chars_parser.parse(input) {
            Ok((parsed, rest)) => Ok((QlASTNode::QlIdent(parsed), rest)),
            Err(_) => Err(()),
        }
    }
}

pub fn identifier_parser() -> (r: IdentifierParser)
    ensures
        r == IdentifierParser,
{
    IdentifierParser
}

/// Reads a string literal in single quotes.
///
/// Given the input:
/// ```text
/// 'POST' == request.method
/// ```
///
/// it gives back the literal text `POST` and the rest ` == request.method`.
pub struct StringLiteralParser;

impl Parser for StringLiteralParser {
    type Out = QlASTNode;

    open spec fn defined_on(&self, s: Seq<char>) -> bool {
        true
    }

    open spec fn spec_parse(&self, s: Seq<char>) -> Option<(SpecNode, Seq<char>)> {
        spec_string_literal(s)
    }

    proof fn lemma_rest_is_suffix(&self, s: Seq<char>) {
        lemma_string_literal_rest(s);
    }

    fn parse<'a>(&self, input: &'a str) -> (r: Result<(QlASTNode, &'a str), ()>) {
        let single_quote_parser = by_char_parser("'");
        proof {
            reveal_strlit("'");
        }
        let sym = symbol_parser();
        let num = number_parser();
        let letter = letter_parser();
        proof {
            lemma_pattern_reads_one_char(sym);
            lemma_pattern_reads_one_char(num);
            lemma_pattern_reads_one_char(letter);
            lemma_either_reads_one_char(num, letter);
            lemma_either_reads_one_char(sym, Either { first: num, second: letter });
        }
        let literal_value_parser = seq_parser_chars(either_parser(sym, either_parser(num, letter)));
        let (_, literal) = match single_quote_parser.parse(input) {
            Ok(r) => r,
            Err(_) => return Err(()),
        };
        proof {
            lemma_accepted_prefix_len_where(literal_value_parser.p, literal@, |c: char| is_literal_char(c));
        }
        match literal_value_parser.parse(literal) {
            Ok((parsed, rest)) => {
                match single_quote_parser.parse(rest) {
                    Ok((_, rest)) => Ok((QlASTNode::QlLiteral(QlASTLiteral::QlText(parsed)), rest)),
                    Err(_) => Err(()),
                }
            },
            Err(_) => Err(()),
        }
    }
}

pub fn string_literal_parser() -> (r: StringLiteralParser)
    ensures
        r == StringLiteralParser,
{
    StringLiteralParser
}

pub proof fn lemma_digits_value_step(d: Seq<char>, i: int)
    requires
        0 <= i < d.len(),
    ensures
        digits_value(d.take(i + 1)) == digits_value(d.take(i)) * 10 + (d[i] as nat - '0' as nat) as nat,
{
    assert(d.take(i + 1).drop_last() =~= d.take(i));
}

pub proof fn lemma_digits_value_monotonic(d: Seq<char>, i: int)
    requires
        0 <= i <= d.len(),
        forall|j: int| 0 <= j < d.len() ==> is_digit(#[trigger] d[j]),
    ensures
        digits_value(d.take(i)) <= digits_value(d),
    decreases d.len() - i,
{
    if i < d.len() {
        lemma_digits_value_step(d, i);
        lemma_digits_value_monotonic(d, i + 1);
    } else {
        assert(d.take(i) =~= d);
    }
}

/// Reads a number literal: a run of decimal digits that fits in a `u32`.
pub struct NumberLiteralParser;

impl Parser for NumberLiteralParser {
    type Out = QlASTNode;

    open spec fn defined_on(&self, s: Seq<char>) -> bool {
        true
    }

    open spec fn spec_parse(&self, s: Seq<char>) -> Option<(SpecNode, Seq<char>)> {
        spec_number_literal(s)
    }

    proof fn lemma_rest_is_suffix(&self, s: Seq<char>) {
        lemma_number_literal_rest(s);
    }

    fn parse<'a>(&self, input: &'a str) -> (r: Result<(QlASTNode, &'a str), ()>) {
        let num = number_parser();
        proof {
            lemma_pattern_reads_one_char(num);
        }
        let literal_value_parser = seq_parser_chars(num);
        proof {
            lemma_accepted_prefix_len_where(num, input@, |c: char| is_digit(c));
            lemma_prefix_len_where(input@, |c: char| is_digit(c));
        }
        let (parsed, rest) = match literal_value_parser.parse(input) {
            Ok(r) => r,
            Err(_) => return Err(()),
        };
        let ghost d = parsed@;
        assert(forall|j: int| 0 <= j < d.len() ==> is_digit(#[trigger] d[j])) by {
            assert forall|j: int| 0 <= j < d.len() implies is_digit(#[trigger] d[j]) by {
                assert(d[j] == input@[j]);
            }
        }
        let digits = parsed.as_str();
        let n = digits.unicode_len();
        if n == 0 {
            return Err(());
        }
        let mut value: u64 = 0;
        let mut i: usize = 0;
        assert(d.take(0) =~= Seq::<char>::empty());
        while i < n
            invariant
                i <= n,
                n == d.len(),
                digits@ == d,
                d == input@.take(prefix_len_where(input@, |c: char| is_digit(c)) as int),
                forall|j: int| 0 <= j < d.len() ==> is_digit(#[trigger] d[j]),
                value == digits_value(d.take(i as int)),
                value <= u32::MAX,
            decreases n - i,
        {
            let c = digits.get_char(i);
            let digit = (c as u32) - ('0' as u32);
            proof {
                lemma_digits_value_step(d, i as int);
            }
            value = value * 10 + digit as u64;
            i = i + 1;
            if value > 0xffff_ffffu64 {
                proof {
                    lemma_digits_value_monotonic(d, i as int);
                }
                return Err(());
            }
        }
        assert(d.take(n as int) =~= d);
        Ok((QlASTNode::QlLiteral(QlASTLiteral::QlNumber(value as u32)), rest))
    }
}

pub fn number_literal_parser() -> (r: NumberLiteralParser)
    ensures
        r == NumberLiteralParser,
{
    NumberLiteralParser
}

/// Drops one leading space, if there is one; it never fails.
pub struct SkipSpace;

impl Parser for SkipSpace {
    type Out = ();

    open spec fn defined_on(&self, s: Seq<char>) -> bool {
        true
    }

    open spec fn spec_parse(&self, s: Seq<char>) -> Option<((), Seq<char>)> {
        Some(((), spec_skip_space(s)))
    }

    proof fn lemma_rest_is_suffix(&self, s: Seq<char>) {
        lemma_skip_space_rest(s);
    }

    fn parse<'a>(&self, input: &'a str) -> (r: Result<((), &'a str), ()>) {
        let n = input.unicode_len();
        if n > 0 && input.get_char(0) == ' ' {
            let rest = input.substring_char(1, n);
            assert(rest@ =~= input@.drop_first());
            Ok(((), rest))
        } else {
            Ok(((), input))
        }
    }
}

pub fn skip_space() -> (r: SkipSpace)
    ensures
        r == SkipSpace,
{
    SkipSpace
}

// ---------------------------------------------------------------------------
// Operators

/// `AND` or `OR` at the start of the input.
pub open spec fn spec_logic_op(s: Seq<char>) -> Option<(QlASTOp, Seq<char>)> {
    if s.len() >= 3 && s[0] == 'A' && s[1] == 'N' && s[2] == 'D' {
        Some((QlASTOp::AND, s.skip(3)))
    } else if s.len() >= 2 && s[0] == 'O' && s[1] == 'R' {
        Some((QlASTOp::OR, s.skip(2)))
    } else {
        None
    }
}

/// `==`, `!=`, `<` or `>` at the start of the input.
pub open spec fn spec_boolean_op(s: Seq<char>) -> Option<(QlASTOp, Seq<char>)> {
    if s.len() >= 2 && s[0] == '=' && s[1] == '=' {
        Some((QlASTOp::EQ, s.skip(2)))
    } else if s.len() >= 2 && s[0] == '!' && s[1] == '=' {
        Some((QlASTOp::NEQ, s.skip(2)))
    } else if s.len() >= 1 && s[0] == '<' {
        Some((QlASTOp::LT, s.skip(1)))
    } else if s.len() >= 1 && s[0] == '>' {
        Some((QlASTOp::GT, s.skip(1)))
    } else {
        None
    }
}

pub open spec fn is_ascii_char(c: char) -> bool {
    c <= '\x7f'
}

/// The boolean operator parser reads its input by byte offsets 2 and 1, so it
/// is defined only where those fall between characters: where the first two
/// characters (as far as there are any) are ASCII.
pub open spec fn boolean_op_defined(s: Seq<char>) -> bool {
    s.len() == 0 || (is_ascii_char(s[0]) && (s.len() == 1 || is_ascii_char(s[1])))
}

pub struct LogicOpParser;

impl Parser for LogicOpParser {
    type Out = QlASTOp;

    open spec fn defined_on(&self, s: Seq<char>) -> bool {
        true
    }

    open spec fn spec_parse(&self, s: Seq<char>) -> Option<(QlASTOp, Seq<char>)> {
        spec_logic_op(s)
    }

    proof fn lemma_rest_is_suffix(&self, s: Seq<char>) {
        if s.len() >= 2 {
            lemma_skip_is_suffix(s, 2);
        }
        if s.len() >= 3 {
            lemma_skip_is_suffix(s, 3);
        }
    }

    fn parse<'a>(&self, input: &'a str) -> (r: Result<(QlASTOp, &'a str), ()>) {
        let n = input.unicode_len();
        if n >= 3 && input.get_char(0) == 'A' && input.get_char(1) == 'N' && input.get_char(2) == 'D' {
            let rest = input.substring_char(3, n);
            assert(rest@ =~= input@.skip(3));
            Ok((QlASTOp::AND, rest))
        } else if n >= 2 && input.get_char(0) == 'O' && input.get_char(1) == 'R' {
            let rest = input.substring_char(2, n);
            assert(rest@ =~= input@.skip(2));
            Ok((QlASTOp::OR, rest))
        } else {
            Err(())
        }
    }
}

pub fn logic_op_parser() -> (r: LogicOpParser)
    ensures
        r == LogicOpParser,
{
    LogicOpParser
}

pub struct BooleanOpParser;

impl Parser for BooleanOpParser {
    type Out = QlASTOp;

    open spec fn defined_on(&self, s: Seq<char>) -> bool {
        boolean_op_defined(s)
    }

    open spec fn spec_parse(&self, s: Seq<char>) -> Option<(QlASTOp, Seq<char>)> {
        spec_boolean_op(s)
    }

    proof fn lemma_rest_is_suffix(&self, s: Seq<char>) {
        if s.len() >= 1 {
            lemma_skip_is_suffix(s, 1);
        }
        if s.len() >= 2 {
            lemma_skip_is_suffix(s, 2);
        }
    }

    fn parse<'a>(&self, input: &'a str) -> (r: Result<(QlASTOp, &'a str), ()>) {
        let n = input.unicode_len();
        if n >= 2 {
            let c0 = input.get_char(0);
            let c1 = input.get_char(1);
            if c0 == '=' && c1 == '=' {
                let rest = input.substring_char(2, n);
                assert(rest@ =~= input@.skip(2));
                return Ok((QlASTOp::EQ, rest));
            }
            if c0 == '!' && c1 == '=' {
                let rest = input.substring_char(2, n);
                assert(rest@ =~= input@.skip(2));
                return Ok((QlASTOp::NEQ, rest));
            }
        }
        if n >= 1 {
            let c0 = input.get_char(0);
            if c0 == '<' {
                let rest = input.substring_char(1, n);
                assert(rest@ =~= input@.skip(1));
                return Ok((QlASTOp::LT, rest));
            }
            if c0 == '>' {
                let rest = input.substring_char(1, n);
                assert(rest@ =~= input@.skip(1));
                return Ok((QlASTOp::GT, rest));
            }
        }
        Err(())
    }
}

pub fn boolean_op_parser() -> (r: BooleanOpParser)
    ensures
        r == BooleanOpParser,
{
    BooleanOpParser
}

// ---------------------------------------------------------------------------
// Paths

/// A path segment: `.` and an identifier, or `[`, a number literal and `]`.
pub open spec fn spec_path_segment(s: Seq<char>) -> Option<(SpecNode, Seq<char>)> {
    if s.len() > 0 && s[0] == '.' {
        Some(spec_identifier(s.drop_first()))
    } else if s.len() > 0 && s[0] == '[' {
        match spec_number_literal(s.drop_first()) {
            Some((index, rest)) => if rest.len() > 0 && rest[0] == ']' {
                Some((index, rest.drop_first()))
            } else {
                None
            },
            None => None,
        }
    } else {
        None
    }
}

pub proof fn lemma_path_segment_rest(s: Seq<char>)
    ensures
        spec_path_segment(s) matches Some((_, rest)) ==> is_suffix_of(rest, s) && rest.len() < s.len(),
{
    if s.len() > 0 {
        lemma_skip_is_suffix(s, 1);
        lemma_identifier_rest(s.drop_first());
        lemma_number_literal_rest(s.drop_first());
        if let Some((_, rest)) = spec_path_segment(s) {
            if s[0] == '.' {
                lemma_suffix_trans(rest, s.drop_first(), s);
            } else {
                let (_, r) = spec_number_literal(s.drop_first()).unwrap();
                lemma_skip_is_suffix(r, 1);
                lemma_suffix_trans(r, s.drop_first(), s);
                lemma_suffix_trans(rest, r, s);
            }
        }
    }
}

/// The path segments at the start of `s`, as many as can be read one after
/// another, and the input after them.
pub open spec fn spec_path_segments(s: Seq<char>) -> (Seq<SpecNode>, Seq<char>)
    decreases s.len(),
{
    match spec_path_segment(s) {
        Some((segment, rest)) => {
            proof {
                lemma_path_segment_rest(s);
            }
            let (segments, r) = spec_path_segments(rest);
            (seq![segment] + segments, r)
        },
        None => (Seq::empty(), s),
    }
}

pub proof fn lemma_path_segments_rest(s: Seq<char>)
    ensures
        is_suffix_of(spec_path_segments(s).1, s),
    decreases s.len(),
{
    lemma_path_segment_rest(s);
    if let Some((_, rest)) = spec_path_segment(s) {
        lemma_path_segments_rest(rest);
        lemma_suffix_trans(spec_path_segments(rest).1, rest, s);
    } else {
        lemma_skip_is_suffix(s, 0);
        assert(s.skip(0) =~= s);
    }
}

/// Segments are read as long as one can be: what is left after them does not
/// start with another segment.
pub proof fn lemma_path_segments_maximal(s: Seq<char>)
    ensures
        spec_path_segment(spec_path_segments(s).1) is None,
    decreases s.len(),
{
    lemma_path_segment_rest(s);
    if let Some((_, rest)) = spec_path_segment(s) {
        lemma_path_segments_maximal(rest);
    }
}

/// A path is read as far as it goes: what is left after it does not start
/// with another segment.
pub proof fn lemma_path_maximal(s: Seq<char>)
    ensures
        spec_path_segment(spec_path(s).1) is None,
{
    let rest1 = spec_identifier(s).1;
    lemma_path_segments_maximal(rest1);
    if spec_path_segments(rest1).0.len() == 0 {
        if let Some((seg, r)) = spec_path_segment(rest1) {
            lemma_path_segment_rest(rest1);
            assert(spec_path_segments(rest1).0[0] == seg);
        }
    }
}

/// A path, or a bare identifier: an identifier followed by the path segments
/// that can be read; with at least one segment it is an access of them.
pub open spec fn spec_path(s: Seq<char>) -> (SpecNode, Seq<char>) {
    let (base, rest1) = spec_identifier(s);
    let (segments, rest2) = spec_path_segments(rest1);
    if segments.len() == 0 {
        (base, rest1)
    } else {
        (SpecNode::NodeExpr(SpecExpr::Access(Box::new(base), segments)), rest2)
    }
}

pub proof fn lemma_path_rest(s: Seq<char>)
    ensures
        is_suffix_of(spec_path(s).1, s),
{
    lemma_identifier_rest(s);
    lemma_path_segments_rest(spec_identifier(s).1);
    lemma_suffix_trans(spec_path_segments(spec_identifier(s).1).1, spec_identifier(s).1, s);
}

pub proof fn lemma_nodes_view_len(v: Seq<Box<QlASTNode>>)
    ensures
        nodes_view(v).len() == v.len(),
    decreases v.len(),
{
    if v.len() > 0 {
        lemma_nodes_view_len(v.drop_last());
    }
}

fn parse_path_segment<'a>(input: &'a str) -> (r: Option<(QlASTNode, &'a str)>)
    ensures
        match r {
            Some((v, rest)) => spec_path_segment(input@) == Some((v@, rest@)),
            None => spec_path_segment(input@) is None,
        },
{
    let n = input.unicode_len();
    if n > 0 && input.get_char(0) == '.' {
        let after = input.substring_char(1, n);
        assert(after@ =~= input@.drop_first());
        match identifier_parser().parse(after) {
            Ok(r) => Some(r),
            Err(_) => None,
        }
    } else if n > 0 && input.get_char(0) == '[' {
        let after = input.substring_char(1, n);
        assert(after@ =~= input@.drop_first());
        match number_literal_parser().parse(after) {
            Ok((index, rest)) => {
                let m = rest.unicode_len();
                if m > 0 && rest.get_char(0) == ']' {
                    let r2 = rest.substring_char(1, m);
                    assert(r2@ =~= rest@.drop_first());
                    Some((index, r2))
                } else {
                    None
                }
            },
            Err(_) => None,
        }
    } else {
        None
    }
}

fn parse_path<'a>(input: &'a str) -> (r: (QlASTNode, &'a str))
    ensures
        spec_path(input@) == (r.0@, r.1@),
        spec_path_segment(r.1@) is None,
{
    proof {
        lemma_path_maximal(input@);
    }
    let (base, rest1) = match identifier_parser().parse(input) {
        Ok(r) => r,
        Err(_) => return (QlASTNode::QlIdent(String::new()), input),
    };
    let mut segments: Vec<Box<QlASTNode>> = Vec::new();
    let mut rest = rest1;
    loop
        invariant
            spec_path_segments(rest1@) == (
                nodes_view(segments@) + spec_path_segments(rest@).0,
                spec_path_segments(rest@).1,
            ),
        ensures
            spec_path_segment(rest@) is None,
            spec_path_segments(rest1@) == (nodes_view(segments@), rest@),
        decreases rest@.len(),
    {
        match parse_path_segment(rest) {
            Some((segment, r)) => {
                proof {
                    lemma_path_segment_rest(rest@);
                }
                let ghost old_segments = segments@;
                let ghost old_rest = rest@;
                segments.push(Box::new(segment));
                assert(segments@.drop_last() =~= old_segments);
                assert(nodes_view(segments@) + spec_path_segments(r@).0 =~= nodes_view(old_segments)
                    + spec_path_segments(old_rest).0);
                rest = r;
            },
            None => {
                assert(nodes_view(segments@) + spec_path_segments(rest@).0 =~= nodes_view(segments@));
                break;
            },
        }
    }
    proof {
        lemma_nodes_view_len(segments@);
    }
    if segments.len() == 0 {
        (base, rest1)
    } else {
        (QlASTNode::QlNodeExpr(QlExpr::Access(Box::new(base), segments)), rest)
    }
}

// ---------------------------------------------------------------------------
// Expressions

/// An operand: a number literal, else a string literal, else an expression
/// in parentheses, else a path or identifier.
pub open spec fn spec_operand(s: Seq<char>) -> (SpecNode, Seq<char>)
    decreases s.len(), 0int,
{
    match spec_number_literal(s) {
        Some(r) => r,
        None => match spec_string_literal(s) {
            Some(r) => r,
            None => if s.len() > 0 && s[0] == '(' {
                match spec_expression(s.drop_first()) {
                    Some((e, rest)) => if rest.len() > 0 && rest[0] == ')' {
                        (e, rest.drop_first())
                    } else {
                        spec_path(s)
                    },
                    None => spec_path(s),
                }
            } else {
                spec_path(s)
            },
        },
    }
}

/// An infix operator: a logic operator, else a boolean operator.
pub open spec fn spec_infix_op(s: Seq<char>) -> Option<(QlASTOp, Seq<char>)> {
    match spec_logic_op(s) {
        Some(r) => Some(r),
        None => spec_boolean_op(s),
    }
}

/// An operand, then (after an optional space) either an infix operator and
/// (after an optional space) an expression, which nest to the right, or
/// nothing more.
pub open spec fn spec_expression(s: Seq<char>) -> Option<(SpecNode, Seq<char>)>
    decreases s.len(), 1int,
{
    let (left, rest1) = spec_operand(s);
    let rest2 = spec_skip_space(rest1);
    match spec_infix_op(rest2) {
        Some((op, rest3)) => {
            let rest4 = spec_skip_space(rest3);
            if rest4.len() < s.len() {
                match spec_expression(rest4) {
                    Some((right, rest5)) => Some(
                        (
                            SpecNode::NodeExpr(SpecExpr::BinaryInfix(op, Box::new(left), Box::new(right))),
                            spec_skip_space(rest5),
                        ),
                    ),
                    None => None,
                }
            } else {
                None
            }
        },
        None => Some((SpecNode::NodeExpr(SpecExpr::Term(Box::new(left))), rest2)),
    }
}

/// The inputs on which reading an operand is defined: where it is an
/// expression in parentheses, that expression must be defined.
pub open spec fn operand_defined(s: Seq<char>) -> bool
    decreases s.len(), 0int,
{
    if spec_number_literal(s) is None && spec_string_literal(s) is None && s.len() > 0 && s[0]
        == '(' {
        expression_defined(s.drop_first())
    } else {
        true
    }
}

/// The inputs on which the expression parser is defined: wherever an operator
/// is looked for after an operand and `AND`/`OR` are not there, the boolean
/// operator parser must be defined.
pub open spec fn expression_defined(s: Seq<char>) -> bool
    decreases s.len(), 1int,
{
    let (left, rest1) = spec_operand(s);
    let rest2 = spec_skip_space(rest1);
    &&& operand_defined(s)
    &&& spec_logic_op(rest2) is None ==> boolean_op_defined(rest2)
    &&& match spec_infix_op(rest2) {
        Some((op, rest3)) => {
            let rest4 = spec_skip_space(rest3);
            if rest4.len() < s.len() {
                expression_defined(rest4)
            } else {
                true
            }
        },
        None => true,
    }
}

/// What an operand and an expression leave is a suffix of the input; an
/// expression is always read, and an operator read after an operand leaves
/// less than the whole input.
pub proof fn lemma_expression_facts(s: Seq<char>)
    ensures
        is_suffix_of(spec_operand(s).1, s),
        spec_expression(s) is Some,
        is_suffix_of(spec_expression(s).unwrap().1, s),
        spec_infix_op(spec_skip_space(spec_operand(s).1)) matches Some((_, rest3)) ==> spec_skip_space(
            rest3,
        ).len() < s.len(),
    decreases s.len(),
{
    lemma_number_literal_rest(s);
    lemma_string_literal_rest(s);
    lemma_path_rest(s);
    if spec_number_literal(s) is None && spec_string_literal(s) is None && s.len() > 0 && s[0]
        == '(' {
        let inner = s.drop_first();
        lemma_expression_facts(inner);
        lemma_skip_is_suffix(s, 1);
        let (e, rest) = spec_expression(inner).unwrap();
        lemma_suffix_trans(rest, inner, s);
        if rest.len() > 0 && rest[0] == ')' {
            lemma_skip_is_suffix(rest, 1);
            lemma_suffix_trans(rest.drop_first(), rest, s);
        }
    }
    let (left, rest1) = spec_operand(s);
    let rest2 = spec_skip_space(rest1);
    lemma_skip_space_rest(rest1);
    lemma_suffix_trans(rest2, rest1, s);
    LogicOpParser.lemma_rest_is_suffix(rest2);
    BooleanOpParser.lemma_rest_is_suffix(rest2);
    if let Some((op, rest3)) = spec_infix_op(rest2) {
        let rest4 = spec_skip_space(rest3);
        lemma_skip_space_rest(rest3);
        lemma_suffix_trans(rest3, rest2, s);
        lemma_suffix_trans(rest4, rest3, s);
        lemma_expression_facts(rest4);
        let (right, rest5) = spec_expression(rest4).unwrap();
        lemma_skip_space_rest(rest5);
        lemma_suffix_trans(rest5, rest4, s);
        lemma_suffix_trans(spec_skip_space(rest5), rest5, s);
    }
}

fn parse_operand<'a>(input: &'a str) -> (r: (QlASTNode, &'a str))
    requires
        operand_defined(input@),
    ensures
        spec_operand(input@) == (r.0@, r.1@),
    decreases input@.len(), 0int,
{
    match number_literal_parser().parse(input) {
        Ok(r) => {
            return r;
        },
        Err(_) => {},
    }
    match string_literal_parser().parse(input) {
        Ok(r) => {
            return r;
        },
        Err(_) => {},
    }
    let n = input.unicode_len();
    if n > 0 && input.get_char(0) == '(' {
        let inner = input.substring_char(1, n);
        assert(inner@ =~= input@.drop_first());
        match parse_expression(inner) {
            Ok((e, rest)) => {
                let m = rest.unicode_len();
                if m > 0 && rest.get_char(0) == ')' {
                    let after = rest.substring_char(1, m);
                    assert(after@ =~= rest@.drop_first());
                    return (e, after);
                }
            },
            Err(_) => {},
        }
    }
    parse_path(input)
}

fn parse_expression<'a>(input: &'a str) -> (r: Result<(QlASTNode, &'a str), ()>)
    requires
        expression_defined(input@),
    ensures
        match r {
            Ok((v, rest)) => spec_expression(input@) == Some((v@, rest@)),
            Err(_) => spec_expression(input@) is None,
        },
    decreases input@.len(), 1int,
{
    proof {
        lemma_expression_facts(input@);
    }
    let (left_expr, rest) = parse_operand(input);
    let (_, rest) = match skip_space().parse(rest) {
        Ok(r) => r,
        Err(_) => return Err(()),
    };
    let infix_operator_parser = either_parser(logic_op_parser(), boolean_op_parser());
    match infix_operator_parser.parse(rest) {
        Ok((op, rest)) => {
            let (_, rest) = match skip_space().parse(rest) {
                Ok(r) => r,
                Err(_) => return Err(()),
            };
            let (right_expr, rest) = match parse_expression(rest) {
                Ok(r) => r,
                Err(_) => return Err(()),
            };
            let (_, rest) = match skip_space().parse(rest) {
                Ok(r) => r,
                Err(_) => return Err(()),
            };
            Ok((QlASTNode::QlNodeExpr(QlExpr::BinaryInfix(op, Box::new(left_expr), Box::new(right_expr))), rest))
        },
        _ => Ok((QlASTNode::QlNodeExpr(QlExpr::Term(Box::new(left_expr))), rest)),
    }
}

/// Reads an expression of the query language (see the grammar at the top of
/// this module); infix operators nest to the right, with no precedence.
pub struct ExpressionParser;

impl Parser for ExpressionParser {
    type Out = QlASTNode;

    open spec fn defined_on(&self, s: Seq<char>) -> bool {
        expression_defined(s)
    }

    open spec fn spec_parse(&self, s: Seq<char>) -> Option<(SpecNode, Seq<char>)> {
        spec_expression(s)
    }

    proof fn lemma_rest_is_suffix(&self, s: Seq<char>) {
        lemma_expression_facts(s);
    }

    fn parse<'a>(&self, input: &'a str) -> (r: Result<(QlASTNode, &'a str), ()>) {
        parse_expression(input)
    }
}

pub fn expression_parser() -> (r: ExpressionParser)
    ensures
        r == ExpressionParser,
{
    ExpressionParser
}

// ---------------------------------------------------------------------------
// Laws

/// A sequence parser never fails: what it reads, followed by what it leaves,
/// is its input; `p` accepts every character it read, and not the first
/// character it left.
pub proof fn lemma_seq_chars_splits_input<P: Parser<Out = char>>(sp: SeqChars<P>, s: Seq<char>)
    ensures
        (sp.spec_parse(s) matches Some((read, rest)) && read + rest == s && (forall|j: int|
            0 <= j < read.len() ==> accepts_char(sp.p, #[trigger] read[j])) && (rest.len() > 0
            ==> !accepts_char(sp.p, rest[0]))),
{
    let p = sp.p;
    lemma_accepted_prefix_len_bound(p, s);
    let k = accepted_prefix_len(p, s) as int;
    assert(s.take(k) + s.skip(k) =~= s);
    assert forall|j: int| 0 <= j < k implies accepts_char(p, #[trigger] s.take(k)[j]) by {
        assert(s.take(k)[j] == s[j]);
    }
    if k < s.len() {
        assert(s.skip(k)[0] == s[k]);
    }
}

/// Reading back a written string literal: a single quote, a text of literal
/// characters and a single quote read as that text, whatever follows.
pub proof fn lemma_string_literal_roundtrip(t: Seq<char>, rest: Seq<char>)
    requires
        forall|j: int| 0 <= j < t.len() ==> is_literal_char(#[trigger] t[j]),
    ensures
        spec_string_literal(seq!['\''] + t + seq!['\''] + rest) == Some(
            (SpecNode::Literal(SpecLiteral::Text(t)), rest),
        ),
{
    let s = seq!['\''] + t + seq!['\''] + rest;
    let u = s.drop_first();
    assert(u =~= t + seq!['\''] + rest);
    assert forall|j: int| 0 <= j < t.len() implies (|c: char| is_literal_char(c))(#[trigger] u[j]) by {
        assert(u[j] == t[j]);
    }
    assert(u[t.len() as int] == '\'');
    lemma_prefix_len_where_at(u, |c: char| is_literal_char(c), t.len() as int);
    assert(u.take(t.len() as int) =~= t);
    assert(u.skip(t.len() as int).drop_first() =~= rest);
}

/// Reading back a written identifier: identifier characters followed by
/// something that does not start with one read as that identifier.
pub proof fn lemma_identifier_roundtrip(x: Seq<char>, rest: Seq<char>)
    requires
        forall|j: int| 0 <= j < x.len() ==> is_ident_char(#[trigger] x[j]),
        rest.len() > 0 ==> !is_ident_char(rest[0]),
    ensures
        spec_identifier(x + rest) == (SpecNode::Ident(x), rest),
{
    let s = x + rest;
    assert forall|j: int| 0 <= j < x.len() implies (|c: char| is_ident_char(c))(#[trigger] s[j]) by {
        assert(s[j] == x[j]);
    }
    if rest.len() > 0 {
        assert(s[x.len() as int] == rest[0]);
    }
    lemma_prefix_len_where_at(s, |c: char| is_ident_char(c), x.len() as int);
    assert(s.take(x.len() as int) =~= x);
    assert(s.skip(x.len() as int) =~= rest);
}

/// Reading back a written number: a non-empty run of digits whose value fits
/// in a `u32`, followed by something that does not start with a digit, reads
/// as that value.
pub proof fn lemma_number_literal_roundtrip(d: Seq<char>, rest: Seq<char>)
    requires
        d.len() > 0,
        forall|j: int| 0 <= j < d.len() ==> is_digit(#[trigger] d[j]),
        digits_value(d) <= u32::MAX,
        rest.len() > 0 ==> !is_digit(rest[0]),
    ensures
        spec_number_literal(d + rest) == Some(
            (SpecNode::Literal(SpecLiteral::Number(digits_value(d) as u32)), rest),
        ),
{
    let s = d + rest;
    assert forall|j: int| 0 <= j < d.len() implies (|c: char| is_digit(c))(#[trigger] s[j]) by {
        assert(s[j] == d[j]);
    }
    if rest.len() > 0 {
        assert(s[d.len() as int] == rest[0]);
    }
    lemma_prefix_len_where_at(s, |c: char| is_digit(c), d.len() as int);
    assert(s.take(d.len() as int) =~= d);
    assert(s.skip(d.len() as int) =~= rest);
}

/// The expression parser never fails: every input starts with an operand
/// (an identifier may be empty), and what follows it is optional.
pub proof fn lemma_expression_never_fails(s: Seq<char>)
    ensures
        spec_expression(s) is Some,
{
    lemma_expression_facts(s);
}

/// Infix operators nest to the right: an identifier, ` == ` and an input
/// `t` read as `==` applied to the identifier and to what `t` reads as.
pub proof fn lemma_expression_eq(x: Seq<char>, t: Seq<char>)
    requires
        forall|j: int| 0 <= j < x.len() ==> is_ident_char(#[trigger] x[j]),
    ensures
        spec_expression(x + seq![' ', '=', '=', ' '] + t) == Some(
            (
                SpecNode::NodeExpr(
                    SpecExpr::BinaryInfix(
                        QlASTOp::EQ,
                        Box::new(SpecNode::Ident(x)),
                        Box::new(spec_expression(t).unwrap().0),
                    ),
                ),
                spec_skip_space(spec_expression(t).unwrap().1),
            ),
        ),
        expression_defined(x + seq![' ', '=', '=', ' '] + t) == expression_defined(t),
{
    let rest1 = seq![' ', '=', '=', ' '] + t;
    let s = x + rest1;
    assert(s =~= x + seq![' ', '=', '=', ' '] + t);
    lemma_expression_never_fails(t);
    lemma_identifier_roundtrip(x, rest1);
    // neither a number, a string literal nor a parenthesis starts here
    if x.len() > 0 {
        assert(s[0] == x[0]);
    } else {
        assert(s[0] == ' ');
    }
    lemma_prefix_len_where_at(s, |c: char| is_digit(c), 0);
    // and no path segment follows the identifier
    assert(spec_path_segment(rest1) is None);
    assert(spec_path_segments(rest1).0.len() == 0);
    assert(spec_number_literal(s) is None);
    assert(spec_string_literal(s) is None);
    assert(spec_path(s) == (SpecNode::Ident(x), rest1));
    assert(spec_operand(s) == (SpecNode::Ident(x), rest1));
    assert(operand_defined(s));
    let rest2 = spec_skip_space(rest1);
    assert(rest2 =~= seq!['=', '=', ' '] + t);
    assert(rest2.skip(2) =~= seq![' '] + t);
    assert(spec_skip_space(rest2.skip(2)) =~= t);
}

/// An identifier followed by something that does not continue it (no
/// identifier character, no `.` and no `[`) is read as an operand on its own.
pub proof fn lemma_identifier_operand(x: Seq<char>, rest1: Seq<char>)
    requires
        forall|j: int| 0 <= j < x.len() ==> is_ident_char(#[trigger] x[j]),
        rest1.len() > 0 ==> !is_ident_char(rest1[0]) && rest1[0] != '.' && rest1[0] != '[',
        x.len() == 0 && rest1.len() > 0 ==> !is_digit(rest1[0]) && rest1[0] != '\'' && rest1[0]
            != '(',
    ensures
        spec_operand(x + rest1) == (SpecNode::Ident(x), rest1),
        operand_defined(x + rest1),
{
    let s = x + rest1;
    lemma_identifier_roundtrip(x, rest1);
    if x.len() > 0 {
        assert(s[0] == x[0]);
    } else if rest1.len() > 0 {
        assert(s[0] == rest1[0]);
    }
    lemma_prefix_len_where_at(s, |c: char| is_digit(c), 0);
    assert(spec_path_segment(rest1) is None);
    assert(spec_path_segments(rest1).0.len() == 0);
    assert(spec_number_literal(s) is None);
    assert(spec_string_literal(s) is None);
    assert(spec_path(s) == (SpecNode::Ident(x), rest1));
}

/// How each infix operator is written.
pub open spec fn op_word(op: QlASTOp) -> Seq<char> {
    match op {
        QlASTOp::EQ => seq!['=', '='],
        QlASTOp::NEQ => seq!['!', '='],
        QlASTOp::LT => seq!['<'],
        QlASTOp::GT => seq!['>'],
        QlASTOp::AND => seq!['A', 'N', 'D'],
        QlASTOp::OR => seq!['O', 'R'],
    }
}

/// Each operator word is read as its operator, whatever follows it.
pub proof fn lemma_infix_op_word(op: QlASTOp, t: Seq<char>)
    ensures
        spec_infix_op(op_word(op) + t) == Some((op, t)),
{
    let s = op_word(op) + t;
    assert(s.skip(op_word(op).len() as int) =~= t);
}

/// The operator read after the left operand is the operator of the node:
/// wherever an operator follows the first operand, the expression is an
/// infix node of exactly that operator, with that operand on its left.
pub proof fn lemma_expression_carries_op(s: Seq<char>)
    ensures
        spec_infix_op(spec_skip_space(spec_operand(s).1)) matches Some((op, _)) ==> spec_expression(
            s,
        ).unwrap().0 matches SpecNode::NodeExpr(SpecExpr::BinaryInfix(o, l, _)) && o == op && *l
            == spec_operand(s).0,
        spec_infix_op(spec_skip_space(spec_operand(s).1)) is None ==> spec_expression(s).unwrap().0
            == SpecNode::NodeExpr(SpecExpr::Term(Box::new(spec_operand(s).0))),
{
    lemma_expression_facts(s);
    if let Some((_, rest3)) = spec_infix_op(spec_skip_space(spec_operand(s).1)) {
        lemma_expression_never_fails(spec_skip_space(rest3));
    }
}

/// The operator in the tree is the operator written: an identifier, a space,
/// an operator, a space and an input `t` read as that operator applied to the
/// identifier and to what `t` reads as.
pub proof fn lemma_expression_infix(x: Seq<char>, op: QlASTOp, t: Seq<char>)
    requires
        forall|j: int| 0 <= j < x.len() ==> is_ident_char(#[trigger] x[j]),
    ensures
        spec_expression(x + seq![' '] + op_word(op) + seq![' '] + t) == Some(
            (
                SpecNode::NodeExpr(
                    SpecExpr::BinaryInfix(
                        op,
                        Box::new(SpecNode::Ident(x)),
                        Box::new(spec_expression(t).unwrap().0),
                    ),
                ),
                spec_skip_space(spec_expression(t).unwrap().1),
            ),
        ),
        expression_defined(x + seq![' '] + op_word(op) + seq![' '] + t) == expression_defined(t),
{
    let w = op_word(op);
    let rest1 = seq![' '] + w + seq![' '] + t;
    let s = x + rest1;
    assert(s =~= x + seq![' '] + op_word(op) + seq![' '] + t);
    lemma_expression_never_fails(t);
    lemma_identifier_operand(x, rest1);
    let rest2 = spec_skip_space(rest1);
    assert(rest2 =~= w + seq![' '] + t);
    let rest3 = rest2.skip(w.len() as int);
    assert(rest3 =~= seq![' '] + t);
    assert(spec_skip_space(rest3) =~= t);
    assert(spec_infix_op(rest2) == Some((op, rest3)));
    assert(spec_logic_op(rest2) is None ==> boolean_op_defined(rest2));
}

/// An identifier alone reads as a term holding it, with nothing left.
pub proof fn lemma_identifier_expression(y: Seq<char>)
    requires
        forall|j: int| 0 <= j < y.len() ==> is_ident_char(#[trigger] y[j]),
    ensures
        spec_expression(y) == Some(
            (SpecNode::NodeExpr(SpecExpr::Term(Box::new(SpecNode::Ident(y)))), Seq::<char>::empty()),
        ),
        expression_defined(y),
{
    lemma_identifier_operand(y, Seq::empty());
    assert(y + Seq::<char>::empty() =~= y);
}

/// For identifiers `x` and `y` and every operator, `x op y` reads as that
/// operator applied to `x` and to the term `y`, with nothing left.
pub proof fn lemma_infix_of_identifiers(x: Seq<char>, op: QlASTOp, y: Seq<char>)
    requires
        forall|j: int| 0 <= j < x.len() ==> is_ident_char(#[trigger] x[j]),
        forall|j: int| 0 <= j < y.len() ==> is_ident_char(#[trigger] y[j]),
    ensures
        spec_expression(x + seq![' '] + op_word(op) + seq![' '] + y) == Some(
            (
                SpecNode::NodeExpr(
                    SpecExpr::BinaryInfix(
                        op,
                        Box::new(SpecNode::Ident(x)),
                        Box::new(SpecNode::NodeExpr(SpecExpr::Term(Box::new(SpecNode::Ident(y))))),
                    ),
                ),
                Seq::<char>::empty(),
            ),
        ),
        expression_defined(x + seq![' '] + op_word(op) + seq![' '] + y),
{
    lemma_identifier_expression(y);
    lemma_expression_infix(x, op, y);
    assert(spec_skip_space(Seq::<char>::empty()) =~= Seq::<char>::empty());
}

/// How a sequence of names is written as path segments: each after a `.`.
pub open spec fn dotted(xs: Seq<Seq<char>>) -> Seq<char>
    decreases xs.len(),
{
    if xs.len() == 0 {
        Seq::empty()
    } else {
        seq!['.'] + xs[0] + dotted(xs.drop_first())
    }
}

/// Names as identifier nodes.
pub open spec fn idents(xs: Seq<Seq<char>>) -> Seq<SpecNode> {
    xs.map_values(|x: Seq<char>| SpecNode::Ident(x))
}

/// Reading back written name segments: every `.name` is read, in order, up to
/// something that does not continue the path.
pub proof fn lemma_path_segments_dotted(xs: Seq<Seq<char>>, rest: Seq<char>)
    requires
        forall|i: int, j: int| 0 <= i < xs.len() && 0 <= j < xs[i].len() ==> is_ident_char(#[trigger] xs[i][j]),
        rest.len() > 0 ==> !is_ident_char(rest[0]) && rest[0] != '.' && rest[0] != '[',
    ensures
        spec_path_segments(dotted(xs) + rest) == (idents(xs), rest),
    decreases xs.len(),
{
    if xs.len() == 0 {
        assert(dotted(xs) + rest =~= rest);
        assert(spec_path_segment(rest) is None);
        assert(idents(xs) =~= Seq::<SpecNode>::empty());
    } else {
        let tail = xs.drop_first();
        assert forall|i: int, j: int| 0 <= i < tail.len() && 0 <= j < tail[i].len() implies is_ident_char(#[trigger] tail[i][j]) by {
            assert(tail[i] == xs[i + 1]);
        }
        lemma_path_segments_dotted(tail, rest);
        let after = dotted(tail) + rest;
        let s = dotted(xs) + rest;
        assert(s =~= seq!['.'] + (xs[0] + after));
        assert(s.drop_first() =~= xs[0] + after);
        assert forall|j: int| 0 <= j < xs[0].len() implies is_ident_char(#[trigger] xs[0][j]) by {
            assert(is_ident_char(xs[0][j]));
        }
        if tail.len() > 0 {
            assert(after[0] == '.');
        } else {
            assert(after =~= rest);
        }
        lemma_identifier_roundtrip(xs[0], after);
        assert(spec_path_segment(s) == Some((SpecNode::Ident(xs[0]), after)));
        assert(idents(xs) =~= seq![SpecNode::Ident(xs[0])] + idents(tail));
    }
}

/// Reading back a written path: an identifier and one or more `.name`
/// segments read as an access of the names, with nothing left.
pub proof fn lemma_expression_path(x: Seq<char>, xs: Seq<Seq<char>>)
    requires
        forall|j: int| 0 <= j < x.len() ==> is_ident_char(#[trigger] x[j]),
        forall|i: int, j: int| 0 <= i < xs.len() && 0 <= j < xs[i].len() ==> is_ident_char(#[trigger] xs[i][j]),
        xs.len() >= 1,
    ensures
        spec_expression(x + dotted(xs)) == Some(
            (
                SpecNode::NodeExpr(
                    SpecExpr::Term(
                        Box::new(SpecNode::NodeExpr(SpecExpr::Access(Box::new(SpecNode::Ident(x)), idents(xs)))),
                    ),
                ),
                Seq::<char>::empty(),
            ),
        ),
        expression_defined(x + dotted(xs)),
{
    let d = dotted(xs);
    let s = x + d;
    assert(d[0] == '.');
    lemma_path_segments_dotted(xs, Seq::empty());
    assert(d + Seq::<char>::empty() =~= d);
    lemma_identifier_roundtrip(x, d);
    if x.len() > 0 {
        assert(s[0] == x[0]);
    } else {
        assert(s[0] == d[0]);
    }
    lemma_prefix_len_where_at(s, |c: char| is_digit(c), 0);
    assert(spec_number_literal(s) is None);
    assert(spec_string_literal(s) is None);
    assert(idents(xs).len() == xs.len());
    let e = Seq::<char>::empty();
    let a = SpecNode::NodeExpr(SpecExpr::Access(Box::new(SpecNode::Ident(x)), idents(xs)));
    assert(spec_path(s) == (a, e));
    assert(s[0] != '(');
    assert(spec_operand(s) == (a, e));
    assert(spec_skip_space(e) =~= e);
    assert(spec_infix_op(e) is None);
    assert(operand_defined(s));
}

/// Reading back a written index segment: `[`, a non-empty run of digits
/// whose value fits in a `u32`, and `]` read as that number, whatever follows.
pub proof fn lemma_path_segment_index(d: Seq<char>, r: Seq<char>)
    requires
        d.len() > 0,
        forall|j: int| 0 <= j < d.len() ==> is_digit(#[trigger] d[j]),
        digits_value(d) <= u32::MAX,
    ensures
        spec_path_segment(seq!['['] + d + seq![']'] + r) == Some(
            (SpecNode::Literal(SpecLiteral::Number(digits_value(d) as u32)), r),
        ),
{
    let s = seq!['['] + d + seq![']'] + r;
    let after = seq![']'] + r;
    assert(s.drop_first() =~= d + after);
    lemma_number_literal_roundtrip(d, after);
    assert(after.drop_first() =~= r);
}

/// Reading back a written indexed path: an identifier and `[` digits `]`
/// read as an access of that number, with nothing left.
pub proof fn lemma_expression_index(x: Seq<char>, d: Seq<char>)
    requires
        forall|j: int| 0 <= j < x.len() ==> is_ident_char(#[trigger] x[j]),
        d.len() > 0,
        forall|j: int| 0 <= j < d.len() ==> is_digit(#[trigger] d[j]),
        digits_value(d) <= u32::MAX,
    ensures
        spec_expression(x + seq!['['] + d + seq![']']) == Some(
            (
                SpecNode::NodeExpr(
                    SpecExpr::Term(
                        Box::new(
                            SpecNode::NodeExpr(
                                SpecExpr::Access(
                                    Box::new(SpecNode::Ident(x)),
                                    seq![SpecNode::Literal(SpecLiteral::Number(digits_value(d) as u32))],
                                ),
                            ),
                        ),
                    ),
                ),
                Seq::<char>::empty(),
            ),
        ),
        expression_defined(x + seq!['['] + d + seq![']']),
{
    let e = Seq::<char>::empty();
    let seg = seq!['['] + d + seq![']'];
    let s = x + seg;
    assert(s =~= x + seq!['['] + d + seq![']']);
    lemma_path_segment_index(d, e);
    assert(seg + e =~= seg);
    let n = SpecNode::Literal(SpecLiteral::Number(digits_value(d) as u32));
    assert(spec_path_segment(e) is None);
    assert(spec_path_segments(seg) == (seq![n], e)) by {
        assert(spec_path_segments(e) == (Seq::<SpecNode>::empty(), e));
        assert(seq![n] + Seq::<SpecNode>::empty() =~= seq![n]);
    }
    lemma_identifier_roundtrip(x, seg);
    if x.len() > 0 {
        assert(s[0] == x[0]);
    } else {
        assert(s[0] == '[');
    }
    lemma_prefix_len_where_at(s, |c: char| is_digit(c), 0);
    assert(spec_number_literal(s) is None);
    assert(spec_string_literal(s) is None);
    assert(spec_identifier(s) == (SpecNode::Ident(x), seg));
    let a = SpecNode::NodeExpr(SpecExpr::Access(Box::new(SpecNode::Ident(x)), seq![n]));
    assert(spec_path(s) == (a, e));
    assert(s[0] != '(');
    assert(spec_operand(s) == (a, e));
    assert(spec_skip_space(e) =~= e);
    assert(spec_infix_op(e) is None);
    assert(operand_defined(s));
}

} // verus!
