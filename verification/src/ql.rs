//! Parser combinators over owned strings, and the query language expressions
//! built from them.
//!
//! ```text
//! letter = "A" | ... | "Z" | "a" | ... | "z" ;
//! digit = "0" | ... | "9" ;
//! symbol = "[" | "]" | "{" | "}" | "(" | ")" | "<" | ">"
//!        | "=" | "|" | "." | "," | ";" | "-"
//!        | "+" | "*" | "?" | "\n" | "\t" | "\r" ;
//! Ident = (letter | "_" | "@" | "$" | "=")* ;
//!
//! Expr ::=
//!      | Expr + '==' + Expr
//!      | Expr + 'and' + Expr
//!      | Value
//!      | Ident
//! ```
//!
//! `==` nests to the right; the word `and` ends an expression: what follows
//! it is read, and the expression before it is what is kept.
use vstd::prelude::*;

pub mod parser;

use crate::ql::parser::{
    PatternParser, is_ascii_char, is_ident_char, is_literal_char, spec_skip_space,
};
use crate::ql::parser::lemma_skip_space_rest;
use crate::text::{
    is_suffix_of, lemma_prefix_len_where, lemma_prefix_len_where_at, lemma_skip_is_suffix,
    lemma_suffix_trans, prefix_len_where,
};

verus! {

/// A parser reads a prefix of its input and hands back what it read and the rest.
pub trait Parser {
    type Out: View;

    /// Inputs on which `parse` is defined (everywhere else it would not return).
    spec fn defined_on(&self, s: Seq<char>) -> bool;

    /// What `parse` gives back on `s`: `None` where it fails.
    spec fn spec_parse(&self, s: Seq<char>) -> Option<(<Self::Out as View>::V, Seq<char>)>;

    fn parse(&self, input: String) -> (r: Result<(Self::Out, String), ()>)
        requires
            self.defined_on(input@),
        ensures
            match r {
                Ok((v, rest)) => self.spec_parse(input@) == Some((v@, rest@)),
                Err(_) => self.spec_parse(input@) is None,
            },
    ;

    /// What a parser leaves over is a suffix of its input: it reads a prefix.
    proof fn lemma_rest_is_suffix(&self, s: Seq<char>)
        ensures
            self.spec_parse(s) matches Some((_, rest)) ==> is_suffix_of(rest, s),
    ;
}

/// A parser that accepts `c` as a whole input of one character.
pub open spec fn accepts_char<P: Parser>(p: P, c: char) -> bool {
    p.spec_parse(seq![c]) is Some
}

/// A parser that, on an input of one character, gives back that character
/// (as a string) and nothing left over wherever it succeeds.
pub open spec fn gives_back_char<P: Parser<Out = String>>(p: P) -> bool {
    forall|c: char|
        #[trigger] p.spec_parse(seq![c]) matches Some((t, rest)) ==> t == seq![c] && rest.len() == 0
}

/// A parser of one character that gives back the character it read and is
/// defined on every input of one character.
pub open spec fn reads_one_char<P: Parser<Out = String>>(p: P) -> bool {
    &&& gives_back_char(p)
    &&& forall|c: char| #[trigger] p.defined_on(seq![c])
}

/// Patterns of characters read one at a time; the matched character must be
/// ASCII, since the input after it is taken from its second byte on.
impl Parser for PatternParser {
    type Out = String;

    open spec fn defined_on(&self, s: Seq<char>) -> bool {
        s.len() > 0 && self.matches(s[0]) ==> is_ascii_char(s[0])
    }

    open spec fn spec_parse(&self, s: Seq<char>) -> Option<(Seq<char>, Seq<char>)> {
        if s.len() > 0 && self.matches(s[0]) {
            Some((seq![s[0]], s.drop_first()))
        } else {
            None
        }
    }

    proof fn lemma_rest_is_suffix(&self, s: Seq<char>) {
        if s.len() > 0 {
            lemma_skip_is_suffix(s, 1);
        }
    }

    fn parse(&self, input: String) -> (r: Result<(String, String), ()>) {
        let inp = input.as_str();
        let n = inp.unicode_len();
        if n == 0 {
            return Err(());
        }
        let ch = inp.get_char(0);
        if self.matches_exec(ch) {
            let parsed = inp.substring_char(0, 1).to_owned();
            let rest = inp.substring_char(1, n).to_owned();
            assert(parsed@ =~= seq![input@[0]]);
            assert(rest@ =~= input@.drop_first());
            Ok((parsed, rest))
        } else {
            Err(())
        }
    }
}

pub proof fn lemma_ascii_pattern_reads_one_char(p: PatternParser)
    requires
        forall|c: char| p.matches(c) ==> is_ascii_char(c),
    ensures
        reads_one_char(p),
        forall|c: char| accepts_char(p, c) <==> p.matches(c),
{
    assert forall|c: char| accepts_char(p, c) <==> p.matches(c) by {
        assert(seq![c][0] == c);
    }
    assert forall|c: char| #[trigger] p.defined_on(seq![c]) by {
        assert(seq![c][0] == c);
    }
    assert forall|c: char|
        #[trigger] p.spec_parse(seq![c]) matches Some((t, rest)) ==> t == seq![c] && rest.len() == 0 by {
        assert(seq![c][0] == c);
    }
}

/// A parser of one ASCII letter.
pub fn letter_parser() -> (r: PatternParser)
    ensures
        forall|c: char| #[trigger] r.matches(c) <==> crate::ql::parser::is_letter(c),
{
    crate::ql::parser::letter_parser()
}

/// A parser of one decimal digit.
pub fn number_parser() -> (r: PatternParser)
    ensures
        forall|c: char| #[trigger] r.matches(c) <==> crate::ql::parser::is_digit(c),
{
    crate::ql::parser::number_parser()
}

/// A parser of one punctuation or control character of the query language.
pub fn symbol_parser() -> (r: PatternParser)
    ensures
        forall|c: char| #[trigger] r.matches(c) <==> crate::ql::parser::is_symbol(c),
{
    crate::ql::parser::symbol_parser()
}

/// A parser of one of the non-letter characters allowed in identifiers.
pub fn ident_sym_parser() -> (r: PatternParser)
    ensures
        forall|c: char| #[trigger] r.matches(c) <==> crate::ql::parser::is_ident_sym(c),
{
    crate::ql::parser::ident_sym_parser()
}

/// A parser of exactly the one-character string `target`.
pub struct ByCharParser {
    pub target: &'static str,
}

impl Parser for ByCharParser {
    type Out = String;

    /// The input after the character is taken from its second byte on, so a
    /// matched character must be ASCII.
    open spec fn defined_on(&self, s: Seq<char>) -> bool {
        s.len() > 0 && self.target@ == seq![s[0]] ==> is_ascii_char(s[0])
    }

    open spec fn spec_parse(&self, s: Seq<char>) -> Option<(Seq<char>, Seq<char>)> {
        if s.len() > 0 && self.target@ == seq![s[0]] {
            Some((seq![s[0]], s.drop_first()))
        } else {
            None
        }
    }

    proof fn lemma_rest_is_suffix(&self, s: Seq<char>) {
        if s.len() > 0 {
            lemma_skip_is_suffix(s, 1);
        }
    }

    fn parse(&self, input: String) -> (r: Result<(String, String), ()>) {
        let inp = input.as_str();
        let n = inp.unicode_len();
        if n == 0 {
            return Err(());
        }
        let ch = inp.get_char(0);
        if self.target.unicode_len() == 1 && self.target.get_char(0) == ch {
            let parsed = inp.substring_char(0, 1).to_owned();
            let rest = inp.substring_char(1, n).to_owned();
            assert(parsed@ =~= seq![input@[0]]);
            assert(self.target@ =~= seq![ch]);
            assert(rest@ =~= input@.drop_first());
            Ok((parsed, rest))
        } else {
            assert(self.target@.len() == 1 ==> self.target@[0] != ch ==> self.target@ != seq![ch]);
            Err(())
        }
    }
}

/// A parser of exactly the one-character string `target` (it fails on every
/// input where `target` is not one character long).
pub fn by_char_parser(target: &'static str) -> (r: ByCharParser)
    ensures
        r.target == target,
{
    ByCharParser { target }
}

/// Tries the first parser and, where it fails, the second on the same input.
pub struct Either<P1, P2> {
    pub first: P1,
    pub second: P2,
}

impl<P1: Parser, P2: Parser<Out = P1::Out>> Parser for Either<P1, P2> {
    type Out = P1::Out;

    open spec fn defined_on(&self, s: Seq<char>) -> bool {
        &&& self.first.defined_on(s)
        &&& self.first.spec_parse(s) is None ==> self.second.defined_on(s)
    }

    open spec fn spec_parse(&self, s: Seq<char>) -> Option<(<Self::Out as View>::V, Seq<char>)> {
        match self.first.spec_parse(s) {
            Some(r) => Some(r),
            None => self.second.spec_parse(s),
        }
    }

    proof fn lemma_rest_is_suffix(&self, s: Seq<char>) {
        self.first.lemma_rest_is_suffix(s);
        self.second.lemma_rest_is_suffix(s);
    }

    fn parse(&self, input: String) -> (r: Result<(Self::Out, String), ()>) {
        match self.first.parse(input.clone()) {
            Ok(r) => Ok(r),
            Err(_) => self.second.parse(input.clone()),
        }
    }
}

/// The parser that gives back what `p1` gives back where `p1` succeeds, and
/// what `p2` gives back on the same input elsewhere.
pub fn either_parser<P1: Parser, P2: Parser<Out = P1::Out>>(p1: P1, p2: P2) -> (r: Either<P1, P2>)
    ensures
        r.first == p1,
        r.second == p2,
{
    Either { first: p1, second: p2 }
}

pub proof fn lemma_either_reads_one_char<P1: Parser<Out = String>, P2: Parser<Out = String>>(p1: P1, p2: P2)
    requires
        reads_one_char(p1),
        reads_one_char(p2),
    ensures
        reads_one_char(Either { first: p1, second: p2 }),
        forall|c: char| accepts_char(Either { first: p1, second: p2 }, c) <==> accepts_char(p1, c) || accepts_char(p2, c),
{
    let e = Either { first: p1, second: p2 };
    assert forall|c: char| #[trigger] e.defined_on(seq![c]) by {
        assert(p1.defined_on(seq![c]));
        assert(p2.defined_on(seq![c]));
    }
    assert forall|c: char|
        #[trigger] e.spec_parse(seq![c]) matches Some((t, rest)) ==> t == seq![c] && rest.len() == 0 by {
        assert(p1.spec_parse(seq![c]) matches Some((t, rest)) ==> t == seq![c] && rest.len() == 0);
        assert(p2.spec_parse(seq![c]) matches Some((t, rest)) ==> t == seq![c] && rest.len() == 0);
    }
}

/// The number of leading characters of `s` that `p` accepts one by one.
pub open spec fn accepted_prefix_len<P: Parser>(p: P, s: Seq<char>) -> nat
    decreases s.len(),
{
    if s.len() > 0 && accepts_char(p, s[0]) {
        1 + accepted_prefix_len(p, s.drop_first())
    } else {
        0
    }
}

pub proof fn lemma_accepted_prefix_len<P: Parser>(p: P, s: Seq<char>, i: int)
    requires
        0 <= i <= s.len(),
        forall|j: int| 0 <= j < i ==> accepts_char(p, #[trigger] s[j]),
        i == s.len() || !accepts_char(p, s[i]),
    ensures
        accepted_prefix_len(p, s) == i,
    decreases i,
{
    if i > 0 {
        let t = s.drop_first();
        assert forall|j: int| 0 <= j < i - 1 implies accepts_char(p, #[trigger] t[j]) by {
            assert(t[j] == s[j + 1]);
        }
        if i < s.len() {
            assert(t[i - 1] == s[i]);
        }
        lemma_accepted_prefix_len(p, t, i - 1);
        assert(accepts_char(p, s[0]));
    }
}

pub proof fn lemma_accepted_prefix_len_bound<P: Parser>(p: P, s: Seq<char>)
    ensures
        accepted_prefix_len(p, s) <= s.len(),
        forall|j: int| 0 <= j < accepted_prefix_len(p, s) ==> accepts_char(p, #[trigger] s[j]),
        accepted_prefix_len(p, s) < s.len() ==> !accepts_char(p, s[accepted_prefix_len(p, s) as int]),
    decreases s.len(),
{
    if s.len() > 0 && accepts_char(p, s[0]) {
        let t = s.drop_first();
        lemma_accepted_prefix_len_bound(p, t);
        assert forall|j: int| 0 <= j < accepted_prefix_len(p, s) implies accepts_char(p, #[trigger] s[j]) by {
            if j > 0 {
                assert(s[j] == t[j - 1]);
            }
        }
        if accepted_prefix_len(p, s) < s.len() {
            assert(s[accepted_prefix_len(p, s) as int] == t[accepted_prefix_len(p, t) as int]);
        }
    }
}

pub proof fn lemma_accepted_prefix_len_where<P: Parser>(p: P, s: Seq<char>, f: spec_fn(char) -> bool)
    requires
        forall|c: char| accepts_char(p, c) <==> #[trigger] f(c),
    ensures
        accepted_prefix_len(p, s) == prefix_len_where(s, f),
    decreases s.len(),
{
    if s.len() > 0 {
        lemma_accepted_prefix_len_where(p, s.drop_first(), f);
        assert(accepts_char(p, s[0]) <==> f(s[0]));
    }
}

/// Applies a one-character parser to each character in turn, as long as it
/// succeeds, and joins what it read.
pub struct SeqParser<P> {
    pub p: P,
}

impl<P: Parser<Out = String>> Parser for SeqParser<P> {
    type Out = String;

    /// Defined where `p` gives back the characters it reads, and is defined on
    /// each character it is run on: those it accepts and the first it refuses.
    open spec fn defined_on(&self, s: Seq<char>) -> bool {
        &&& gives_back_char(self.p)
        &&& forall|j: int|
            0 <= j < s.len() && j <= accepted_prefix_len(self.p, s) ==> self.p.defined_on(
                seq![#[trigger] s[j]],
            )
    }

    open spec fn spec_parse(&self, s: Seq<char>) -> Option<(Seq<char>, Seq<char>)> {
        let k = accepted_prefix_len(self.p, s);
        Some((s.take(k as int), s.skip(k as int)))
    }

    proof fn lemma_rest_is_suffix(&self, s: Seq<char>) {
        lemma_accepted_prefix_len_bound(self.p, s);
        lemma_skip_is_suffix(s, accepted_prefix_len(self.p, s) as int);
    }

    fn parse(&self, input: String) -> (r: Result<(String, String), ()>) {
        let inp = input.as_str();
        let n = inp.unicode_len();
        let mut i: usize = 0;
        while i < n
            invariant_except_break
                i <= n,
                n == input@.len(),
                inp@ == input@,
                self.defined_on(input@),
                forall|j: int| 0 <= j < i ==> accepts_char(self.p, #[trigger] input@[j]),
            ensures
                i <= n,
                n == input@.len(),
                inp@ == input@,
                forall|j: int| 0 <= j < i ==> accepts_char(self.p, #[trigger] input@[j]),
                i == n || !accepts_char(self.p, input@[i as int]),
            decreases n - i,
        {
            let one = inp.substring_char(i, i + 1).to_owned();
            assert(one@ =~= seq![input@[i as int]]);
            proof {
                lemma_accepted_prefix_len_bound(self.p, input@);
                if i > accepted_prefix_len(self.p, input@) {
                    let k = accepted_prefix_len(self.p, input@) as int;
                    assert(accepts_char(self.p, input@[k]));
                }
            }
            match self.p.parse(one) {
                Ok(_) => {
                    i = i + 1;
                },
                Err(_) => {
                    break;
                },
            }
        }
        proof {
            lemma_accepted_prefix_len(self.p, input@, i as int);
        }
        let collected = inp.substring_char(0, i).to_owned();
        let rest = inp.substring_char(i, n).to_owned();
        assert(collected@ =~= input@.take(i as int));
        assert(rest@ =~= input@.skip(i as int));
        Ok((collected, rest))
    }
}

/// The parser that reads the longest prefix whose every character `p` accepts.
pub fn seq_parser<P: Parser<Out = String>>(p: P) -> (r: SeqParser<P>)
    ensures
        r.p == p,
{
    SeqParser { p }
}

// ---------------------------------------------------------------------------
// The syntax tree

/// Operators of the query language.
#[derive(Debug, PartialEq, Eq, Structural, Clone, Copy)]
pub enum QlASTOp {
    // Comparison
    EQ,
    NEQ,
    // Logical
    AND,
    OR,
}

impl View for QlASTOp {
    type V = QlASTOp;

    open spec fn view(&self) -> QlASTOp {
        *self
    }
}

#[derive(Debug, PartialEq)]
pub enum QlASTLiteral {
    QlText(String),
    QlInteger(u32),
}

#[derive(Debug, PartialEq)]
pub enum QlExpr {
    // AND | OR
    BinaryLogicalInfix(QlASTOp, Box<QlASTNode>, Box<QlASTNode>),
    // NOT
    UnaryLogical(Box<QlASTNode>),
    // ==
    Eq(Box<QlASTNode>, Box<QlASTNode>),
}

#[derive(Debug, PartialEq)]
pub enum QlASTNode {
    QlLiteral(QlASTLiteral),
    QlIdent(String),
    QlOperator(QlASTOp),
    QlNodeExpr(QlExpr),
}

/// The mathematical value of a `QlASTLiteral`.
pub enum SpecLiteral {
    Text(Seq<char>),
    Integer(u32),
}

/// The mathematical value of a `QlExpr`.
pub enum SpecExpr {
    BinaryLogicalInfix(QlASTOp, Box<SpecNode>, Box<SpecNode>),
    UnaryLogical(Box<SpecNode>),
    Eq(Box<SpecNode>, Box<SpecNode>),
}

/// The mathematical value of a `QlASTNode`.
pub enum SpecNode {
    Literal(SpecLiteral),
    Ident(Seq<char>),
    Operator(QlASTOp),
    NodeExpr(SpecExpr),
}

pub open spec fn literal_view(l: QlASTLiteral) -> SpecLiteral {
    match l {
        QlASTLiteral::QlText(t) => SpecLiteral::Text(t@),
        QlASTLiteral::QlInteger(n) => SpecLiteral::Integer(n),
    }
}

pub open spec fn node_view(n: QlASTNode) -> SpecNode
    decreases n,
{
    match n {
        QlASTNode::QlLiteral(l) => SpecNode::Literal(literal_view(l)),
        QlASTNode::QlIdent(s) => SpecNode::Ident(s@),
        QlASTNode::QlOperator(op) => SpecNode::Operator(op),
        QlASTNode::QlNodeExpr(e) => SpecNode::NodeExpr(expr_view(e)),
    }
}

pub open spec fn expr_view(e: QlExpr) -> SpecExpr
    decreases e,
{
    match e {
        QlExpr::BinaryLogicalInfix(op, a, b) => SpecExpr::BinaryLogicalInfix(
            op,
            Box::new(node_view(*a)),
            Box::new(node_view(*b)),
        ),
        QlExpr::UnaryLogical(a) => SpecExpr::UnaryLogical(Box::new(node_view(*a))),
        QlExpr::Eq(a, b) => SpecExpr::Eq(Box::new(node_view(*a)), Box::new(node_view(*b))),
    }
}

impl View for QlASTLiteral {
    type V = SpecLiteral;

    open spec fn view(&self) -> SpecLiteral {
        literal_view(*self)
    }
}

impl View for QlExpr {
    type V = SpecExpr;

    open spec fn view(&self) -> SpecExpr {
        expr_view(*self)
    }
}

impl View for QlASTNode {
    type V = SpecNode;

    open spec fn view(&self) -> SpecNode {
        node_view(*self)
    }
}

// ---------------------------------------------------------------------------
// Terms

/// An identifier: the longest prefix of identifier characters (possibly empty).
pub open spec fn spec_identifier(s: Seq<char>) -> (SpecNode, Seq<char>) {
    let k = prefix_len_where(s, |c: char| is_ident_char(c));
    (SpecNode::Ident(s.take(k as int)), s.skip(k as int))
}

/// A string literal: a single quote, the longest run of literal characters,
/// and a closing single quote.
pub open spec fn spec_literal_string(s: Seq<char>) -> Option<(SpecNode, Seq<char>)> {
    if s.len() > 0 && s[0] == '\'' {
        let t = s.drop_first();
        let k = prefix_len_where(t, |c: char| is_literal_char(c));
        let rest = t.skip(k as int);
        if rest.len() > 0 && rest[0] == '\'' {
            Some((SpecNode::Literal(SpecLiteral::Text(t.take(k as int))), rest.drop_first()))
        } else {
            None
        }
    } else {
        None
    }
}

proof fn lemma_ident_chars_parser(sym: PatternParser, letter: PatternParser)
    requires
        forall|c: char| #[trigger] sym.matches(c) <==> crate::ql::parser::is_ident_sym(c),
        forall|c: char| #[trigger] letter.matches(c) <==> crate::ql::parser::is_letter(c),
    ensures
        reads_one_char(Either { first: sym, second: letter }),
        forall|c: char| accepts_char(Either { first: sym, second: letter }, c) <==> #[trigger] is_ident_char(c),
{
    lemma_ascii_pattern_reads_one_char(sym);
    lemma_ascii_pattern_reads_one_char(letter);
    lemma_either_reads_one_char(sym, letter);
}

pub proof fn lemma_identifier_rest(s: Seq<char>)
    ensures
        is_suffix_of(spec_identifier(s).1, s),
{
    lemma_prefix_len_where(s, |c: char| is_ident_char(c));
    lemma_skip_is_suffix(s, prefix_len_where(s, |c: char| is_ident_char(c)) as int);
}

pub proof fn lemma_literal_string_rest(s: Seq<char>)
    ensures
        spec_literal_string(s) matches Some((_, rest)) ==> is_suffix_of(rest, s),
{
    if s.len() > 0 {
        let t = s.drop_first();
        let k = prefix_len_where(t, |c: char| is_literal_char(c));
        lemma_prefix_len_where(t, |c: char| is_literal_char(c));
        if t.skip(k as int).len() > 0 {
            assert(t.skip(k as int).drop_first() =~= s.skip((k + 2) as int));
            lemma_skip_is_suffix(s, (k + 2) as int);
        }
    }
}

/// Reads an identifier: it never fails, and reads nothing where the input
/// does not start with an identifier character.
pub struct IdentifierParser;

impl Parser for IdentifierParser {
    type Out = QlASTNode;

    open spec fn defined_on(&self, s: Seq<char>) -> bool {
        true
    }

    open spec fn spec_parse(&self, s: Seq<char>) -> Option<(SpecNode, Seq<char>)> {
        Some(spec_identifier(s))
    }

    proof fn lemma_rest_is_suffix(&self, s: Seq<char>) {
        lemma_identifier_rest(s);
    }

    fn parse(&self, input: String) -> (r: Result<(QlASTNode, String), ()>) {
        let sym = ident_sym_parser();
        let letter = letter_parser();
        proof {
            lemma_ident_chars_parser(sym, letter);
        }
        let ident_chars_parser = seq_parser(either_parser(sym, letter));
        proof {
            lemma_accepted_prefix_len_where(ident_chars_parser.p, input@, |c: char| is_ident_char(c));
        }
        match ident_chars_parser.parse(input) {
            Ok((parsed, rest)) => Ok((QlASTNode::QlIdent(parsed), rest)),
            Err(_) => Err(()),
        }
    }
}

pub fn identifier_parser() -> (r: IdentifierParser)
    ensures
        r == IdentifierParser,
{
    IdentifierParser
}

/// Reads a string literal in single quotes.
pub struct LiteralStringParser;

impl Parser for LiteralStringParser {
    type Out = QlASTNode;

    open spec fn defined_on(&self, s: Seq<char>) -> bool {
        true
    }

    open spec fn spec_parse(&self, s: Seq<char>) -> Option<(SpecNode, Seq<char>)> {
        spec_literal_string(s)
    }

    proof fn lemma_rest_is_suffix(&self, s: Seq<char>) {
        lemma_literal_string_rest(s);
    }

    fn parse(&self, input: String) -> (r: Result<(QlASTNode, String), ()>) {
        let single_quote_parser = by_char_parser("'");
        proof {
            reveal_strlit("'");
            assert(single_quote_parser.target@ =~= seq!['\'']);
        }
        let sym = symbol_parser();
        let num = number_parser();
        let letter = letter_parser();
        proof {
            lemma_ascii_pattern_reads_one_char(sym);
            lemma_ascii_pattern_reads_one_char(num);
            lemma_ascii_pattern_reads_one_char(letter);
            lemma_either_reads_one_char(num, letter);
            lemma_either_reads_one_char(sym, Either { first: num, second: letter });
        }
        let literal_value_parser = seq_parser(either_parser(sym, either_parser(num, letter)));
        assert(input@.len() > 0 ==> (seq![input@[0]] == seq!['\''] <==> input@[0] == '\'')) by {
            if input@.len() > 0 && seq![input@[0]] == seq!['\''] {
                assert(seq![input@[0]][0] == seq!['\''][0]);
            }
        }
        let (_, literal) = match single_quote_parser.parse(input) {
            Ok(r) => r,
            Err(_) => return Err(()),
        };
        proof {
            lemma_accepted_prefix_len_where(literal_value_parser.p, literal@, |c: char| is_literal_char(c));
        }
        match literal_value_parser.parse(literal) {
            Ok((parsed, rest)) => {
                assert(rest@.len() > 0 ==> (seq![rest@[0]] == seq!['\''] <==> rest@[0] == '\'')) by {
                    if rest@.len() > 0 && seq![rest@[0]] == seq!['\''] {
                        assert(seq![rest@[0]][0] == seq!['\''][0]);
                    }
                }
                match single_quote_parser.parse(rest) {
                    Ok((_, rest)) => Ok((QlASTNode::QlLiteral(QlASTLiteral::QlText(parsed)), rest)),
                    Err(_) => Err(()),
                }
            },
            Err(_) => Err(()),
        }
    }
}

pub fn literal_string_parser() -> (r: LiteralStringParser)
    ensures
        r == LiteralStringParser,
{
    LiteralStringParser
}

/// Drops one leading space, if there is one; it never fails.
pub struct SkipSpace;

impl Parser for SkipSpace {
    type Out = ();

    open spec fn defined_on(&self, s: Seq<char>) -> bool {
        true
    }

    open spec fn spec_parse(&self, s: Seq<char>) -> Option<((), Seq<char>)> {
        Some(((), spec_skip_space(s)))
    }

    proof fn lemma_rest_is_suffix(&self, s: Seq<char>) {
        lemma_skip_space_rest(s);
    }

    fn parse(&self, input: String) -> (r: Result<((), String), ()>) {
        let inp = input.as_str();
        let n = inp.unicode_len();
        if n > 0 && inp.get_char(0) == ' ' {
            let rest = inp.substring_char(1, n).to_owned();
            assert(rest@ =~= input@.drop_first());
            Ok(((), rest))
        } else {
            Ok(((), input))
        }
    }
}

pub fn skip_space() -> (r: SkipSpace)
    ensures
        r == SkipSpace,
{
    SkipSpace
}

// ---------------------------------------------------------------------------
// Logic expressions

/// An operand: a string literal, else an identifier.
pub open spec fn spec_operand(s: Seq<char>) -> Option<(SpecNode, Seq<char>)> {
    match spec_literal_string(s) {
        Some(r) => Some(r),
        None => Some(spec_identifier(s)),
    }
}

/// The word after an operand: the longest prefix of identifier characters
/// (it holds the operator, such as `==` or `and`), and the input after it.
pub open spec fn spec_word(s: Seq<char>) -> (Seq<char>, Seq<char>) {
    let k = prefix_len_where(s, |c: char| is_ident_char(c));
    (s.take(k as int), s.skip(k as int))
}

pub proof fn lemma_operand_rest_len(s: Seq<char>)
    ensures
        spec_operand(s) matches Some((_, rest)) && rest.len() <= s.len(),
        spec_word(s).1.len() == s.len() - spec_word(s).0.len(),
{
    lemma_prefix_len_where(s, |c: char| is_ident_char(c));
    if s.len() > 0 {
        lemma_prefix_len_where(s.drop_first(), |c: char| is_literal_char(c));
    }
}

/// An operand, then the end of the input, or (after an optional space) a
/// word, one more character, and an expression. After the word `==` that
/// expression is its right operand (so `==` nests to the right); after the
/// word `and` it is read and ends the reading, and the operand alone is
/// kept. Any other word is refused.
pub open spec fn spec_logic_expression(s: Seq<char>) -> Option<(SpecNode, Seq<char>)>
    decreases s.len(),
{
    match spec_operand(s) {
        Some((expr1, rest1)) => {
            if rest1.len() < 1 {
                Some((expr1, rest1))
            } else {
                let rest2 = spec_skip_space(rest1);
                let (parsed, rest3) = spec_word(rest2);
                proof {
                    lemma_operand_rest_len(s);
                    lemma_operand_rest_len(rest2);
                }
                if parsed == seq!['=', '='] && rest3.len() > 0 {
                    proof {
                        assert(parsed.len() == 2);
                    }
                    match spec_logic_expression(rest3.drop_first()) {
                        Some((next_expr, final_rest)) => Some(
                            (
                                SpecNode::NodeExpr(SpecExpr::Eq(Box::new(expr1), Box::new(next_expr))),
                                final_rest,
                            ),
                        ),
                        None => None,
                    }
                } else if parsed == seq!['a', 'n', 'd'] && rest3.len() > 0 {
                    proof {
                        assert(parsed.len() == 3);
                    }
                    match spec_logic_expression(rest3.drop_first()) {
                        Some((_, final_rest)) => Some((expr1, final_rest)),
                        None => None,
                    }
                } else {
                    None
                }
            }
        },
        None => None,
    }
}

/// The inputs on which the logic expression parser is defined: after `==` it
/// skips one byte, which must be an ASCII character, and the expression after
/// a `==` or an `and` must be defined.
pub open spec fn logic_expression_defined(s: Seq<char>) -> bool
    decreases s.len(),
{
    match spec_operand(s) {
        Some((expr1, rest1)) => {
            rest1.len() < 1 || {
                let rest2 = spec_skip_space(rest1);
                let (parsed, rest3) = spec_word(rest2);
                proof {
                    lemma_operand_rest_len(s);
                    lemma_operand_rest_len(rest2);
                }
                &&& parsed == seq!['=', '='] ==> {
                    proof {
                        assert(parsed.len() == 2);
                    }
                    &&& rest3.len() > 0
                    &&& is_ascii_char(rest3[0])
                    &&& logic_expression_defined(rest3.drop_first())
                }
                &&& parsed == seq!['a', 'n', 'd'] && rest3.len() > 0 ==> {
                    proof {
                        assert(parsed.len() == 3);
                    }
                    logic_expression_defined(rest3.drop_first())
                }
            }
        },
        None => true,
    }
}

pub proof fn lemma_logic_expression_rest(s: Seq<char>)
    ensures
        spec_logic_expression(s) matches Some((_, rest)) ==> is_suffix_of(rest, s),
    decreases s.len(),
{
    lemma_identifier_rest(s);
    lemma_literal_string_rest(s);
    if let Some((expr1, rest1)) = spec_operand(s) {
        if rest1.len() >= 1 {
            let rest2 = spec_skip_space(rest1);
            let (parsed, rest3) = spec_word(rest2);
            lemma_skip_space_rest(rest1);
            lemma_suffix_trans(rest2, rest1, s);
            lemma_operand_rest_len(rest2);
            lemma_prefix_len_where(rest2, |c: char| is_ident_char(c));
            lemma_skip_is_suffix(rest2, parsed.len() as int);
            lemma_suffix_trans(rest3, rest2, s);
            if (parsed == seq!['=', '='] || parsed == seq!['a', 'n', 'd']) && rest3.len() > 0 {
                lemma_skip_is_suffix(rest3, 1);
                lemma_suffix_trans(rest3.drop_first(), rest3, s);
                lemma_logic_expression_rest(rest3.drop_first());
                if let Some((_, final_rest)) = spec_logic_expression(rest3.drop_first()) {
                    lemma_suffix_trans(final_rest, rest3.drop_first(), s);
                }
            }
        }
    }
}

fn is_and(parsed: &String) -> (r: bool)
    ensures
        r == (parsed@ == seq!['a', 'n', 'd']),
{
    let p = parsed.as_str();
    let r = p.unicode_len() == 3 && p.get_char(0) == 'a' && p.get_char(1) == 'n' && p.get_char(2) == 'd';
    assert(r ==> parsed@ =~= seq!['a', 'n', 'd']);
    assert(parsed@ == seq!['a', 'n', 'd'] ==> parsed@[0] == 'a' && parsed@[1] == 'n' && parsed@[2] == 'd');
    r
}

fn is_word(parsed: &String, a: char, b: char) -> (r: bool)
    ensures
        r == (parsed@ == seq![a, b]),
{
    let p = parsed.as_str();
    let r = p.unicode_len() == 2 && p.get_char(0) == a && p.get_char(1) == b;
    assert(r ==> parsed@ =~= seq![a, b]);
    assert(parsed@ == seq![a, b] ==> parsed@[0] == a && parsed@[1] == b);
    r
}

fn parse_logic_expression(input: String) -> (r: Result<(QlASTNode, String), ()>)
    requires
        logic_expression_defined(input@),
    ensures
        match r {
            Ok((v, rest)) => spec_logic_expression(input@) == Some((v@, rest@)),
            Err(_) => spec_logic_expression(input@) is None,
        },
    decreases input@.len(),
{
    let ghost s = input@;
    let ident_or_literal_parser = either_parser(literal_string_parser(), identifier_parser());
    let (expr1, rest1) = match ident_or_literal_parser.parse(input) {
        Ok(r) => r,
        Err(_) => return Err(()),
    };
    if rest1.as_str().unicode_len() < 1 {
        return Ok((expr1, rest1));
    }
    let (_, rest2) = match skip_space().parse(rest1) {
        Ok(r) => r,
        Err(_) => return Err(()),
    };
    let sym = ident_sym_parser();
    let letter = letter_parser();
    proof {
        lemma_ident_chars_parser(sym, letter);
    }
    let word_parser = seq_parser(either_parser(sym, letter));
    proof {
        lemma_accepted_prefix_len_where(word_parser.p, rest2@, |c: char| is_ident_char(c));
        lemma_operand_rest_len(s);
        lemma_operand_rest_len(rest2@);
    }
    match word_parser.parse(rest2) {
        Ok((parsed, rest3)) => {
            if is_word(&parsed, '=', '=') {
                let r3 = rest3.as_str();
                let n = r3.unicode_len();
                let tail = r3.substring_char(1, n).to_owned();
                assert(tail@ =~= rest3@.drop_first());
                match parse_logic_expression(tail) {
                    Ok((next_expr, final_rest)) => Ok(
                        (
                            QlASTNode::QlNodeExpr(QlExpr::Eq(Box::new(expr1), Box::new(next_expr))),
                            final_rest,
                        ),
                    ),
                    _ => Err(()),
                }
            } else if is_and(&parsed) {
                let r3 = rest3.as_str();
                let n = r3.unicode_len();
                if n == 0 {
                    return Err(());
                }
                let tail = r3.substring_char(1, n).to_owned();
                assert(tail@ =~= rest3@.drop_first());
                match parse_logic_expression(tail) {
                    Ok((_, final_rest)) => Ok((expr1, final_rest)),
                    _ => Err(()),
                }
            } else {
                Err(())
            }
        },
        _ => Err(()),
    }
}

/// Reads a logic expression of the query language.
pub struct LogicExpressionParser;

impl Parser for LogicExpressionParser {
    type Out = QlASTNode;

    open spec fn defined_on(&self, s: Seq<char>) -> bool {
        logic_expression_defined(s)
    }

    open spec fn spec_parse(&self, s: Seq<char>) -> Option<(SpecNode, Seq<char>)> {
        spec_logic_expression(s)
    }

    proof fn lemma_rest_is_suffix(&self, s: Seq<char>) {
        lemma_logic_expression_rest(s);
    }

    fn parse(&self, input: String) -> (r: Result<(QlASTNode, String), ()>) {
        parse_logic_expression(input)
    }
}

pub fn logic_expression_parser() -> (r: LogicExpressionParser)
    ensures
        r == LogicExpressionParser,
{
    LogicExpressionParser
}

// ---------------------------------------------------------------------------
// Evaluation

/// Whether `eval_logic_expr` has an evaluation of `n`: no form of expression
/// has one yet, an `==` expression included.
pub open spec fn logic_expr_evaluable(n: QlASTNode) -> bool {
    false
}

/// Evaluates a logic expression to a truth value; it is defined on no input yet.
pub fn eval_logic_expr(n: QlASTNode) -> (r: Result<bool, ()>)
    requires
        logic_expr_evaluable(n),
{
    Err(())
}

// ---------------------------------------------------------------------------
// Laws

/// A sequence parser never fails: what it reads, followed by what it leaves,
/// is its input; `p` accepts every character it read, and not the first
/// character it left.
pub proof fn lemma_seq_splits_input<P: Parser<Out = String>>(sp: SeqParser<P>, s: Seq<char>)
    ensures
        (sp.spec_parse(s) matches Some((read, rest)) && read + rest == s && (forall|j: int|
            0 <= j < read.len() ==> accepts_char(sp.p, #[trigger] read[j])) && (rest.len() > 0
            ==> !accepts_char(sp.p, rest[0]))),
{
    let p = sp.p;
    lemma_accepted_prefix_len_bound(p, s);
    let k = accepted_prefix_len(p, s) as int;
    assert(s.take(k) + s.skip(k) =~= s);
    assert forall|j: int| 0 <= j < k implies accepts_char(p, #[trigger] s.take(k)[j]) by {
        assert(s.take(k)[j] == s[j]);
    }
    if k < s.len() {
        assert(s.skip(k)[0] == s[k]);
    }
}

/// Reading back a written string literal: a single quote, a text of literal
/// characters and a single quote read as that text, whatever follows.
pub proof fn lemma_literal_string_roundtrip(t: Seq<char>, rest: Seq<char>)
    requires
        forall|j: int| 0 <= j < t.len() ==> is_literal_char(#[trigger] t[j]),
    ensures
        spec_literal_string(seq!['\''] + t + seq!['\''] + rest) == Some(
            (SpecNode::Literal(SpecLiteral::Text(t)), rest),
        ),
{
    let s = seq!['\''] + t + seq!['\''] + rest;
    let u = s.drop_first();
    assert(u =~= t + seq!['\''] + rest);
    assert forall|j: int| 0 <= j < t.len() implies (|c: char| is_literal_char(c))(#[trigger] u[j]) by {
        assert(u[j] == t[j]);
    }
    assert(u[t.len() as int] == '\'');
    lemma_prefix_len_where_at(u, |c: char| is_literal_char(c), t.len() as int);
    assert(u.take(t.len() as int) =~= t);
    assert(u.skip(t.len() as int).drop_first() =~= rest);
}

/// Reading back a written identifier: identifier characters followed by
/// something that does not start with one read as that identifier.
pub proof fn lemma_identifier_roundtrip(x: Seq<char>, rest: Seq<char>)
    requires
        forall|j: int| 0 <= j < x.len() ==> is_ident_char(#[trigger] x[j]),
        rest.len() > 0 ==> !is_ident_char(rest[0]),
    ensures
        spec_identifier(x + rest) == (SpecNode::Ident(x), rest),
{
    let s = x + rest;
    assert forall|j: int| 0 <= j < x.len() implies (|c: char| is_ident_char(c))(#[trigger] s[j]) by {
        assert(s[j] == x[j]);
    }
    if rest.len() > 0 {
        assert(s[x.len() as int] == rest[0]);
    }
    lemma_prefix_len_where_at(s, |c: char| is_ident_char(c), x.len() as int);
    assert(s.take(x.len() as int) =~= x);
    assert(s.skip(x.len() as int) =~= rest);
}

/// `==` nests to the right: an identifier, ` == ` and an input `t` read as
/// `==` of the identifier and of what `t` reads as.
pub proof fn lemma_logic_expression_eq(x: Seq<char>, t: Seq<char>)
    requires
        forall|j: int| 0 <= j < x.len() ==> is_ident_char(#[trigger] x[j]),
    ensures
        spec_logic_expression(t) is None ==> spec_logic_expression(x + seq![' ', '=', '=', ' '] + t) is None,
        spec_logic_expression(t) is Some ==> spec_logic_expression(x + seq![' ', '=', '=', ' '] + t) == Some(
            (
                SpecNode::NodeExpr(
                    SpecExpr::Eq(Box::new(SpecNode::Ident(x)), Box::new(spec_logic_expression(t).unwrap().0)),
                ),
                spec_logic_expression(t).unwrap().1,
            ),
        ),
        logic_expression_defined(x + seq![' ', '=', '=', ' '] + t) == logic_expression_defined(t),
{
    let rest1 = seq![' ', '=', '=', ' '] + t;
    let s = x + rest1;
    assert(s =~= x + seq![' ', '=', '=', ' '] + t);
    lemma_identifier_roundtrip(x, rest1);
    if x.len() > 0 {
        assert(s[0] == x[0]);
    } else {
        assert(s[0] == ' ');
    }
    let rest2 = spec_skip_space(rest1);
    assert(rest2 =~= seq!['=', '=', ' '] + t);
    lemma_prefix_len_where_at(rest2, |c: char| is_ident_char(c), 2);
    assert(rest2.take(2) =~= seq!['=', '=']);
    assert(rest2.skip(2) =~= seq![' '] + t);
    assert(rest2.skip(2).drop_first() =~= t);
    assert(seq!['=', '='] != seq!['a', 'n', 'd']) by {
        assert(seq!['=', '='].len() != seq!['a', 'n', 'd'].len());
    }
}

/// The word `and` ends the reading: an identifier, ` and ` and an input `t`
/// read as the identifier alone, with what `t` leaves over.
pub proof fn lemma_logic_expression_and(x: Seq<char>, t: Seq<char>)
    requires
        forall|j: int| 0 <= j < x.len() ==> is_ident_char(#[trigger] x[j]),
    ensures
        spec_logic_expression(t) is None ==> spec_logic_expression(x + seq![' ', 'a', 'n', 'd', ' '] + t) is None,
        spec_logic_expression(t) is Some ==> spec_logic_expression(x + seq![' ', 'a', 'n', 'd', ' '] + t) == Some(
            (SpecNode::Ident(x), spec_logic_expression(t).unwrap().1),
        ),
        logic_expression_defined(x + seq![' ', 'a', 'n', 'd', ' '] + t) == logic_expression_defined(t),
{
    let rest1 = seq![' ', 'a', 'n', 'd', ' '] + t;
    let s = x + rest1;
    assert(s =~= x + seq![' ', 'a', 'n', 'd', ' '] + t);
    lemma_identifier_roundtrip(x, rest1);
    if x.len() > 0 {
        assert(s[0] == x[0]);
    } else {
        assert(s[0] == ' ');
    }
    let rest2 = spec_skip_space(rest1);
    assert(rest2 =~= seq!['a', 'n', 'd', ' '] + t);
    lemma_prefix_len_where_at(rest2, |c: char| is_ident_char(c), 3);
    assert(rest2.take(3) =~= seq!['a', 'n', 'd']);
    assert(rest2.skip(3) =~= seq![' '] + t);
    assert(rest2.skip(3).drop_first() =~= t);
    assert(seq!['a', 'n', 'd'] != seq!['=', '=']) by {
        assert(seq!['a', 'n', 'd'].len() != seq!['=', '='].len());
    }
}

/// The word `and` ends the reading after any operand: where the operand read
/// first leaves ` and ` and an input `t`, the expression is that operand
/// alone, with what `t` leaves over, and it is refused exactly where `t` is.
pub proof fn lemma_logic_expression_and_after_operand(s: Seq<char>, t: Seq<char>)
    requires
        spec_operand(s) matches Some((_, rest1)) && rest1 == seq![' ', 'a', 'n', 'd', ' '] + t,
    ensures
        spec_logic_expression(t) is None ==> spec_logic_expression(s) is None,
        spec_logic_expression(t) is Some ==> spec_logic_expression(s) == Some(
            (spec_operand(s).unwrap().0, spec_logic_expression(t).unwrap().1),
        ),
        logic_expression_defined(s) == logic_expression_defined(t),
{
    let rest1 = spec_operand(s).unwrap().1;
    let rest2 = spec_skip_space(rest1);
    assert(rest2 =~= seq!['a', 'n', 'd', ' '] + t);
    lemma_prefix_len_where_at(rest2, |c: char| is_ident_char(c), 3);
    assert(rest2.take(3) =~= seq!['a', 'n', 'd']);
    assert(rest2.skip(3) =~= seq![' '] + t);
    assert(rest2.skip(3).drop_first() =~= t);
    assert(seq!['a', 'n', 'd'] != seq!['=', '=']) by {
        assert(seq!['a', 'n', 'd'].len() != seq!['=', '='].len());
    }
}

/// `==` nests to the right after any operand: where the operand read first
/// leaves ` == ` and an input `t`, the expression is `==` of that operand and
/// of what `t` reads as, and it is refused exactly where `t` is.
pub proof fn lemma_logic_expression_eq_after_operand(s: Seq<char>, t: Seq<char>)
    requires
        spec_operand(s) matches Some((_, rest1)) && rest1 == seq![' ', '=', '=', ' '] + t,
    ensures
        spec_logic_expression(t) is None ==> spec_logic_expression(s) is None,
        spec_logic_expression(t) is Some ==> spec_logic_expression(s) == Some(
            (
                SpecNode::NodeExpr(
                    SpecExpr::Eq(
                        Box::new(spec_operand(s).unwrap().0),
                        Box::new(spec_logic_expression(t).unwrap().0),
                    ),
                ),
                spec_logic_expression(t).unwrap().1,
            ),
        ),
        logic_expression_defined(s) == logic_expression_defined(t),
{
    let rest1 = spec_operand(s).unwrap().1;
    let rest2 = spec_skip_space(rest1);
    assert(rest2 =~= seq!['=', '=', ' '] + t);
    lemma_prefix_len_where_at(rest2, |c: char| is_ident_char(c), 2);
    assert(rest2.take(2) =~= seq!['=', '=']);
    assert(rest2.skip(2) =~= seq![' '] + t);
    assert(rest2.skip(2).drop_first() =~= t);
}

/// The word `and` ends the reading after a string literal too: a quoted text,
/// ` and ` and an input `u` read as that text alone, with what `u` leaves
/// over, and are refused exactly where `u` is.
pub proof fn lemma_logic_expression_literal_and(t: Seq<char>, u: Seq<char>)
    requires
        forall|j: int| 0 <= j < t.len() ==> is_literal_char(#[trigger] t[j]),
    ensures
        spec_logic_expression(u) is None ==> spec_logic_expression(
            seq!['\''] + t + seq!['\''] + seq![' ', 'a', 'n', 'd', ' '] + u,
        ) is None,
        spec_logic_expression(u) is Some ==> spec_logic_expression(
            seq!['\''] + t + seq!['\''] + seq![' ', 'a', 'n', 'd', ' '] + u,
        ) == Some((SpecNode::Literal(SpecLiteral::Text(t)), spec_logic_expression(u).unwrap().1)),
        logic_expression_defined(seq!['\''] + t + seq!['\''] + seq![' ', 'a', 'n', 'd', ' '] + u)
            == logic_expression_defined(u),
{
    let rest1 = seq![' ', 'a', 'n', 'd', ' '] + u;
    let s = seq!['\''] + t + seq!['\''] + rest1;
    assert(s =~= seq!['\''] + t + seq!['\''] + seq![' ', 'a', 'n', 'd', ' '] + u);
    lemma_literal_string_roundtrip(t, rest1);
    lemma_logic_expression_and_after_operand(s, u);
}

/// `==` after a string literal nests to the right too: a quoted text, ` == `
/// and an input `u` read as `==` of that text and of what `u` reads as.
pub proof fn lemma_logic_expression_literal_eq(t: Seq<char>, u: Seq<char>)
    requires
        forall|j: int| 0 <= j < t.len() ==> is_literal_char(#[trigger] t[j]),
    ensures
        spec_logic_expression(u) is None ==> spec_logic_expression(
            seq!['\''] + t + seq!['\''] + seq![' ', '=', '=', ' '] + u,
        ) is None,
        spec_logic_expression(u) is Some ==> spec_logic_expression(
            seq!['\''] + t + seq!['\''] + seq![' ', '=', '=', ' '] + u,
        ) == Some(
            (
                SpecNode::NodeExpr(
                    SpecExpr::Eq(
                        Box::new(SpecNode::Literal(SpecLiteral::Text(t))),
                        Box::new(spec_logic_expression(u).unwrap().0),
                    ),
                ),
                spec_logic_expression(u).unwrap().1,
            ),
        ),
        logic_expression_defined(seq!['\''] + t + seq!['\''] + seq![' ', '=', '=', ' '] + u)
            == logic_expression_defined(u),
{
    let rest1 = seq![' ', '=', '=', ' '] + u;
    let s = seq!['\''] + t + seq!['\''] + rest1;
    assert(s =~= seq!['\''] + t + seq!['\''] + seq![' ', '=', '=', ' '] + u);
    lemma_literal_string_roundtrip(t, rest1);
    lemma_logic_expression_eq_after_operand(s, u);
}

} // verus!
