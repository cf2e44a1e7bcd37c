//! The mathematical model of tree construction: recursive functions on
//! token sequences that say, for every stream, which tree is built and
//! how many tokens are consumed, or that the stream reaches the mapper
//! with a token outside its domain (`None`).

use vstd::prelude::*;
use crate::tokens::SpecToken;
use crate::primitives::SpecPrimitive;

verus! {

/// A preserved token: a scalar token that maps one-to-one to a primitive.
pub open spec fn is_preserved(t: SpecToken) -> bool {
    match t {
        SpecToken::Ident(_) => true,
        SpecToken::AtKeyword(_) => true,
        SpecToken::Hash(_) => true,
        SpecToken::String(_) => true,
        SpecToken::URL(_) => true,
        SpecToken::Delim(_) => true,
        SpecToken::Number(_, _) => true,
        SpecToken::Percentage(_, _) => true,
        SpecToken::Dimension(_, _, _) => true,
        SpecToken::UnicodeRange(_, _) => true,
        SpecToken::EmptyUnicodeRange => true,
        SpecToken::WhiteSpace => true,
        SpecToken::Colon => true,
        SpecToken::Semicolon => true,
        _ => false,
    }
}

/// The primitive that a preserved token maps to, payload for payload.
pub open spec fn preserved_primitive(t: SpecToken) -> SpecPrimitive
    recommends
        is_preserved(t),
{
    match t {
        SpecToken::Ident(s) => SpecPrimitive::Ident(s),
        SpecToken::AtKeyword(s) => SpecPrimitive::AtKeyword(s),
        SpecToken::Hash(s) => SpecPrimitive::Hash(s),
        SpecToken::String(s) => SpecPrimitive::String(s),
        SpecToken::URL(s) => SpecPrimitive::URL(s),
        SpecToken::Delim(c) => SpecPrimitive::Delim(c),
        SpecToken::Number(v, r) => SpecPrimitive::Number(v, r),
        SpecToken::Percentage(v, r) => SpecPrimitive::Percentage(v, r),
        SpecToken::Dimension(v, r, u) => SpecPrimitive::Dimension(v, r, u),
        SpecToken::UnicodeRange(a, b) => SpecPrimitive::UnicodeRange(a, b),
        SpecToken::EmptyUnicodeRange => SpecPrimitive::EmptyUnicodeRange,
        SpecToken::WhiteSpace => SpecPrimitive::WhiteSpace,
        SpecToken::Colon => SpecPrimitive::Colon,
        SpecToken::Semicolon => SpecPrimitive::Semicolon,
        _ => arbitrary(),
    }
}

/// ASCII case-insensitive equality with the function name `rect`, the one
/// name whose arguments take the unitless-length quirk.
pub open spec fn is_rect_name(s: Seq<char>) -> bool {
    &&& s.len() == 4
    &&& (s[0] == 'r' || s[0] == 'R')
    &&& (s[1] == 'e' || s[1] == 'E')
    &&& (s[2] == 'c' || s[2] == 'C')
    &&& (s[3] == 't' || s[3] == 'T')
}

/// A closing token: the only token kinds that may end a simple block.
pub open spec fn is_closer(t: SpecToken) -> bool {
    t is CloseBracket || t is CloseParen || t is CloseBrace
}

/// The unit written onto a bare number by the quirks-mode rewrite.
pub open spec fn px_unit() -> Seq<char> {
    seq!['p', 'x']
}

/// One primitive, consumed from the front of `toks`: a block after an
/// opener, a function after a function token, or a mapped preserved
/// token. `None` when the front token has no mapping.
pub open spec fn parse_primitive(toks: Seq<SpecToken>, quirks: bool) -> Option<(SpecPrimitive, nat)>
    decreases toks.len(), 0int,
{
    if toks.len() == 0 {
        None
    } else {
        match toks[0] {
            SpecToken::OpenBracket => match parse_block(toks.drop_first(), SpecToken::CloseBracket, quirks) {
                Some((items, n)) => Some((SpecPrimitive::BracketBlock(items), (n + 1) as nat)),
                None => None,
            },
            SpecToken::OpenParen => match parse_block(toks.drop_first(), SpecToken::CloseParen, quirks) {
                Some((items, n)) => Some((SpecPrimitive::ParenBlock(items), (n + 1) as nat)),
                None => None,
            },
            SpecToken::OpenBrace => match parse_block(toks.drop_first(), SpecToken::CloseBrace, quirks) {
                Some((items, n)) => Some((SpecPrimitive::BraceBlock(items), (n + 1) as nat)),
                None => None,
            },
            SpecToken::Function(name) => match parse_arguments(
                toks.drop_first(),
                quirks,
                quirks && is_rect_name(name),
            ) {
                Some((args, n)) => Some((SpecPrimitive::Function(name, args), (n + 1) as nat)),
                None => None,
            },
            t => if is_preserved(t) {
                Some((preserved_primitive(t), 1))
            } else {
                None
            },
        }
    }
}

/// The body of a simple block: primitives until the ending token, an
/// end-of-input token, or the stream runs out; comments are discarded.
/// A missing ending token is tolerated, never a fault.
pub open spec fn parse_block(toks: Seq<SpecToken>, end: SpecToken, quirks: bool) -> Option<(Seq<SpecPrimitive>, nat)>
    decreases toks.len(), 1int,
{
    if toks.len() == 0 {
        Some((Seq::empty(), 0))
    } else if toks[0] is Comment {
        match parse_block(toks.drop_first(), end, quirks) {
            Some((items, n)) => Some((items, (n + 1) as nat)),
            None => None,
        }
    } else if toks[0] is EOF || toks[0] == end {
        Some((Seq::empty(), 1))
    } else {
        match parse_primitive(toks, quirks) {
            Some((p, n)) => if 1 <= n <= toks.len() {
                match parse_block(toks.skip(n as int), end, quirks) {
                    Some((items, m)) => Some((seq![p] + items, (n + m) as nat)),
                    None => None,
                }
            } else {
                None
            },
            None => None,
        }
    }
}

/// A function's argument lists: primitives split on top-level commas,
/// until a close-paren, an end-of-input token, or the stream runs out.
/// The final argument in progress is always emitted, even when empty.
/// `rewrite` holds when a bare number becomes a `px` dimension (quirks
/// mode, inside `rect`).
pub open spec fn parse_arguments(toks: Seq<SpecToken>, quirks: bool, rewrite: bool) -> Option<(Seq<Seq<SpecPrimitive>>, nat)>
    decreases toks.len(), 1int,
{
    if toks.len() == 0 {
        Some((seq![Seq::empty()], 0))
    } else if toks[0] is Comment {
        match parse_arguments(toks.drop_first(), quirks, rewrite) {
            Some((args, n)) => Some((args, (n + 1) as nat)),
            None => None,
        }
    } else if toks[0] is EOF || toks[0] is CloseParen {
        Some((seq![Seq::empty()], 1))
    } else if toks[0] == SpecToken::Delim(',') {
        match parse_arguments(toks.drop_first(), quirks, rewrite) {
            Some((args, n)) => Some((seq![Seq::<SpecPrimitive>::empty()] + args, (n + 1) as nat)),
            None => None,
        }
    } else if toks[0] is Number {
        let p = if rewrite {
            SpecPrimitive::Dimension(toks[0]->Number_0, toks[0]->Number_1, px_unit())
        } else {
            SpecPrimitive::Number(toks[0]->Number_0, toks[0]->Number_1)
        };
        match parse_arguments(toks.drop_first(), quirks, rewrite) {
            Some((args, n)) => if args.len() >= 1 {
                Some((seq![seq![p] + args[0]] + args.drop_first(), (n + 1) as nat))
            } else {
                None
            },
            None => None,
        }
    } else {
        match parse_primitive(toks, quirks) {
            Some((p, n)) => if 1 <= n <= toks.len() {
                match parse_arguments(toks.skip(n as int), quirks, rewrite) {
                    Some((args, m)) => if args.len() >= 1 {
                        Some((seq![seq![p] + args[0]] + args.drop_first(), (n + m) as nat))
                    } else {
                        None
                    },
                    None => None,
                }
            } else {
                None
            },
            None => None,
        }
    }
}

/// A free-standing list of primitives: the whole stream up to an
/// end-of-input token or until it runs out; comments are discarded.
pub open spec fn parse_primitive_list(toks: Seq<SpecToken>, quirks: bool) -> Option<(Seq<SpecPrimitive>, nat)>
    decreases toks.len(), 1int,
{
    if toks.len() == 0 {
        Some((Seq::empty(), 0))
    } else if toks[0] is Comment {
        match parse_primitive_list(toks.drop_first(), quirks) {
            Some((items, n)) => Some((items, (n + 1) as nat)),
            None => None,
        }
    } else if toks[0] is EOF {
        Some((Seq::empty(), 1))
    } else {
        match parse_primitive(toks, quirks) {
            Some((p, n)) => if 1 <= n <= toks.len() {
                match parse_primitive_list(toks.skip(n as int), quirks) {
                    Some((items, m)) => Some((seq![p] + items, (n + m) as nat)),
                    None => None,
                }
            } else {
                None
            },
            None => None,
        }
    }
}

/// The tree of a successful parse.
pub open spec fn parsed<T>(o: Option<(T, nat)>) -> T
    recommends
        o is Some,
{
    match o {
        Some((v, _)) => v,
        None => arbitrary(),
    }
}

/// How many tokens a successful parse consumed.
pub open spec fn consumed<T>(o: Option<(T, nat)>) -> nat {
    match o {
        Some((_, n)) => n,
        None => 0,
    }
}

/// A successful parse of one primitive consumes at least one token and
/// never more than the stream holds.
pub proof fn lemma_parse_primitive_consumed(toks: Seq<SpecToken>, quirks: bool)
    ensures
        parse_primitive(toks, quirks) matches Some((p, n)) ==> 1 <= n <= toks.len(),
    decreases toks.len(), 0int,
{
    if toks.len() > 0 {
        match toks[0] {
            SpecToken::OpenBracket => lemma_parse_block_consumed(toks.drop_first(), SpecToken::CloseBracket, quirks),
            SpecToken::OpenParen => lemma_parse_block_consumed(toks.drop_first(), SpecToken::CloseParen, quirks),
            SpecToken::OpenBrace => lemma_parse_block_consumed(toks.drop_first(), SpecToken::CloseBrace, quirks),
            SpecToken::Function(name) => lemma_parse_arguments_consumed(
                toks.drop_first(),
                quirks,
                quirks && is_rect_name(name),
            ),
            _ => {}
        }
    }
}

/// A successful block parse consumes no more than the stream holds, and
/// at least one token when the stream is not empty.
pub proof fn lemma_parse_block_consumed(toks: Seq<SpecToken>, end: SpecToken, quirks: bool)
    ensures
        parse_block(toks, end, quirks) matches Some((items, n)) ==> n <= toks.len() && (toks.len() > 0 ==> n >= 1),
    decreases toks.len(), 1int,
{
    if toks.len() == 0 {
    } else if toks[0] is Comment {
        lemma_parse_block_consumed(toks.drop_first(), end, quirks);
    } else if toks[0] is EOF || toks[0] == end {
    } else {
        lemma_parse_primitive_consumed(toks, quirks);
        match parse_primitive(toks, quirks) {
            Some((_, n)) => lemma_parse_block_consumed(toks.skip(n as int), end, quirks),
            None => {},
        }
    }
}

/// A successful argument parse yields at least one argument, consumes no
/// more than the stream holds, and at least one token when the stream is
/// not empty.
pub proof fn lemma_parse_arguments_consumed(toks: Seq<SpecToken>, quirks: bool, rewrite: bool)
    ensures
        parse_arguments(toks, quirks, rewrite) matches Some((args, n)) ==> args.len() >= 1 && n <= toks.len() && (toks.len() > 0 ==> n >= 1),
    decreases toks.len(), 1int,
{
    if toks.len() == 0 {
    } else if toks[0] is Comment {
        lemma_parse_arguments_consumed(toks.drop_first(), quirks, rewrite);
    } else if toks[0] is EOF || toks[0] is CloseParen {
    } else if toks[0] == SpecToken::Delim(',') {
        lemma_parse_arguments_consumed(toks.drop_first(), quirks, rewrite);
    } else if toks[0] is Number {
        lemma_parse_arguments_consumed(toks.drop_first(), quirks, rewrite);
    } else {
        lemma_parse_primitive_consumed(toks, quirks);
        match parse_primitive(toks, quirks) {
            Some((_, n)) => lemma_parse_arguments_consumed(toks.skip(n as int), quirks, rewrite),
            None => {},
        }
    }
}

/// A successful list parse consumes no more than the stream holds.
pub proof fn lemma_parse_primitive_list_consumed(toks: Seq<SpecToken>, quirks: bool)
    ensures
        parse_primitive_list(toks, quirks) matches Some((items, n)) ==> n <= toks.len(),
    decreases toks.len(), 1int,
{
    if toks.len() == 0 {
    } else if toks[0] is Comment {
        lemma_parse_primitive_list_consumed(toks.drop_first(), quirks);
    } else if toks[0] is EOF {
    } else {
        lemma_parse_primitive_consumed(toks, quirks);
        match parse_primitive(toks, quirks) {
            Some((_, n)) => lemma_parse_primitive_list_consumed(toks.skip(n as int), quirks),
            None => {},
        }
    }
}

} // verus!
