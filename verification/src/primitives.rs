//! The nodes of the syntax tree that tree construction produces, together
//! with their mathematical models.

use vstd::prelude::*;
use crate::tokens::NumericValue;

verus! {

/// One node of the syntax tree: a preserved scalar token, a function call
/// with its arguments, or a bracket/paren/brace block.
///
/// The variants `Comment`, `CDO`, `CDC`, `CloseBracket`, `CloseParen` and
/// `CloseBrace` complete the closed set of preserved token shapes, but the
/// consumer never builds them: comments are discarded, and the others are
/// outside the mapped domain.
#[derive(PartialEq, Debug)]
pub enum Primitive {
    Ident(String),
    AtKeyword(String),
    Hash(String),
    String(String),
    URL(String),
    Delim(char),
    /// value, verbatim representation
    Number(NumericValue, String),
    /// value, verbatim representation
    Percentage(NumericValue, String),
    /// value, verbatim representation, unit
    Dimension(NumericValue, String, String),
    /// start and end code points
    UnicodeRange(char, char),
    EmptyUnicodeRange,
    WhiteSpace,
    Comment,
    CDO,
    CDC,
    Colon,
    Semicolon,
    CloseBracket,
    CloseParen,
    CloseBrace,
    /// name, then the arguments: each argument is an ordered sequence of
    /// primitives, the argument list having been split on top-level commas
    Function(String, Vec<Vec<Primitive>>),
    BracketBlock(Vec<Primitive>),
    ParenBlock(Vec<Primitive>),
    BraceBlock(Vec<Primitive>),
}

/// The mathematical model of a primitive: every string is a sequence of
/// characters, every list a `Seq`.
#[verifier::ext_equal]
pub enum SpecPrimitive {
    Ident(Seq<char>),
    AtKeyword(Seq<char>),
    Hash(Seq<char>),
    String(Seq<char>),
    URL(Seq<char>),
    Delim(char),
    Number(NumericValue, Seq<char>),
    Percentage(NumericValue, Seq<char>),
    Dimension(NumericValue, Seq<char>, Seq<char>),
    UnicodeRange(char, char),
    EmptyUnicodeRange,
    WhiteSpace,
    Comment,
    CDO,
    CDC,
    Colon,
    Semicolon,
    CloseBracket,
    CloseParen,
    CloseBrace,
    Function(Seq<char>, Seq<Seq<SpecPrimitive>>),
    BracketBlock(Seq<SpecPrimitive>),
    ParenBlock(Seq<SpecPrimitive>),
    BraceBlock(Seq<SpecPrimitive>),
}

/// The model of one primitive.
pub open spec fn prim_view(p: Primitive) -> SpecPrimitive
    decreases p,
{
    match p {
        Primitive::Ident(s) => SpecPrimitive::Ident(s@),
        Primitive::AtKeyword(s) => SpecPrimitive::AtKeyword(s@),
        Primitive::Hash(s) => SpecPrimitive::Hash(s@),
        Primitive::String(s) => SpecPrimitive::String(s@),
        Primitive::URL(s) => SpecPrimitive::URL(s@),
        Primitive::Delim(c) => SpecPrimitive::Delim(c),
        Primitive::Number(v, r) => SpecPrimitive::Number(v, r@),
        Primitive::Percentage(v, r) => SpecPrimitive::Percentage(v, r@),
        Primitive::Dimension(v, r, u) => SpecPrimitive::Dimension(v, r@, u@),
        Primitive::UnicodeRange(a, b) => SpecPrimitive::UnicodeRange(a, b),
        Primitive::EmptyUnicodeRange => SpecPrimitive::EmptyUnicodeRange,
        Primitive::WhiteSpace => SpecPrimitive::WhiteSpace,
        Primitive::Comment => SpecPrimitive::Comment,
        Primitive::CDO => SpecPrimitive::CDO,
        Primitive::CDC => SpecPrimitive::CDC,
        Primitive::Colon => SpecPrimitive::Colon,
        Primitive::Semicolon => SpecPrimitive::Semicolon,
        Primitive::CloseBracket => SpecPrimitive::CloseBracket,
        Primitive::CloseParen => SpecPrimitive::CloseParen,
        Primitive::CloseBrace => SpecPrimitive::CloseBrace,
        Primitive::Function(name, args) => SpecPrimitive::Function(name@, arg_seq_view(args@)),
        Primitive::BracketBlock(v) => SpecPrimitive::BracketBlock(prim_seq_view(v@)),
        Primitive::ParenBlock(v) => SpecPrimitive::ParenBlock(prim_seq_view(v@)),
        Primitive::BraceBlock(v) => SpecPrimitive::BraceBlock(prim_seq_view(v@)),
    }
}

/// The model of a sequence of primitives, element by element.
pub open spec fn prim_seq_view(s: Seq<Primitive>) -> Seq<SpecPrimitive>
    decreases s,
{
    if s.len() == 0 {
        Seq::empty()
    } else {
        seq![prim_view(s[0])] + prim_seq_view(s.drop_first())
    }
}

/// The model of an argument list: each argument modelled element by element.
pub open spec fn arg_seq_view(s: Seq<Vec<Primitive>>) -> Seq<Seq<SpecPrimitive>>
    decreases s,
{
    if s.len() == 0 {
        Seq::empty()
    } else {
        seq![prim_seq_view(s[0]@)] + arg_seq_view(s.drop_first())
    }
}

/// Modelling a sequence keeps its length and works element by element.
pub proof fn lemma_prim_seq_view_index(s: Seq<Primitive>)
    ensures
        prim_seq_view(s).len() == s.len(),
        forall|i: int| 0 <= i < s.len() ==> prim_seq_view(s)[i] == prim_view(s[i]),
    decreases s.len(),
{
    if s.len() > 0 {
        lemma_prim_seq_view_index(s.drop_first());
    }
}

/// Appending one primitive appends its model.
pub proof fn lemma_prim_seq_view_push(s: Seq<Primitive>, p: Primitive)
    ensures
        prim_seq_view(s.push(p)) == prim_seq_view(s).push(prim_view(p)),
{
    let t = s.push(p);
    lemma_prim_seq_view_index(s);
    lemma_prim_seq_view_index(t);
    assert forall|i: int| 0 <= i < t.len() implies prim_seq_view(t)[i] == prim_seq_view(s).push(
        prim_view(p),
    )[i] by {
        if i < s.len() {
            assert(t[i] == s[i]);
        } else {
            assert(t[i] == p);
        }
    }
    assert(prim_seq_view(t) =~= prim_seq_view(s).push(prim_view(p)));
}

/// Modelling an argument list keeps its length and works element by element.
pub proof fn lemma_arg_seq_view_index(s: Seq<Vec<Primitive>>)
    ensures
        arg_seq_view(s).len() == s.len(),
        forall|i: int| 0 <= i < s.len() ==> arg_seq_view(s)[i] == prim_seq_view(s[i]@),
    decreases s.len(),
{
    if s.len() > 0 {
        lemma_arg_seq_view_index(s.drop_first());
    }
}

/// Appending one argument appends its model.
pub proof fn lemma_arg_seq_view_push(s: Seq<Vec<Primitive>>, a: Vec<Primitive>)
    ensures
        arg_seq_view(s.push(a)) == arg_seq_view(s).push(prim_seq_view(a@)),
{
    let t = s.push(a);
    lemma_arg_seq_view_index(s);
    lemma_arg_seq_view_index(t);
    assert forall|i: int| 0 <= i < t.len() implies arg_seq_view(t)[i] == arg_seq_view(s).push(
        prim_seq_view(a@),
    )[i] by {
        if i < s.len() {
            assert(t[i] == s[i]);
        } else {
            assert(t[i] == a);
        }
    }
    assert(arg_seq_view(t) =~= arg_seq_view(s).push(prim_seq_view(a@)));
}

} // verus!
