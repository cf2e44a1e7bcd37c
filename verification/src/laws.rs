//! General properties of tree construction, stated and proved over the
//! mathematical model.

use vstd::prelude::*;
use crate::tokens::{NumericValue, SpecToken};
use crate::primitives::SpecPrimitive;
use crate::model::{
    is_rect_name, is_closer, px_unit, parse_primitive, parse_block, parse_arguments,
    parse_primitive_list, lemma_parse_arguments_consumed,
};

verus! {

/// A tree the consumer can produce: no comment, marker or closer nodes
/// (those token kinds are discarded or refused, never mapped), every
/// function has at least one argument, and no argument holds a top-level
/// comma (a comma there would have split the argument).
pub open spec fn wf_prim(p: SpecPrimitive) -> bool
    decreases p,
{
    match p {
        SpecPrimitive::Comment => false,
        SpecPrimitive::CDO => false,
        SpecPrimitive::CDC => false,
        SpecPrimitive::CloseBracket => false,
        SpecPrimitive::CloseParen => false,
        SpecPrimitive::CloseBrace => false,
        SpecPrimitive::Function(_, args) => args.len() >= 1 && wf_args(args),
        SpecPrimitive::BracketBlock(items) => wf_prims(items),
        SpecPrimitive::ParenBlock(items) => wf_prims(items),
        SpecPrimitive::BraceBlock(items) => wf_prims(items),
        _ => true,
    }
}

/// Every element of the sequence is a well-formed tree.
pub open spec fn wf_prims(s: Seq<SpecPrimitive>) -> bool
    decreases s,
{
    if s.len() == 0 {
        true
    } else {
        wf_prim(s[0]) && wf_prims(s.drop_first())
    }
}

/// A well-formed function argument: well-formed trees, none of them a
/// top-level comma delimiter.
pub open spec fn wf_arg(s: Seq<SpecPrimitive>) -> bool
    decreases s,
{
    if s.len() == 0 {
        true
    } else {
        wf_prim(s[0]) && s[0] != SpecPrimitive::Delim(',') && wf_arg(s.drop_first())
    }
}

/// Every argument of the list is well-formed.
pub open spec fn wf_args(args: Seq<Seq<SpecPrimitive>>) -> bool
    decreases args,
{
    if args.len() == 0 {
        true
    } else {
        wf_arg(args[0]) && wf_args(args.drop_first())
    }
}

/// The token form of one tree: the stream that the tokenizer would hand
/// over for its source text.
pub open spec fn flat_prim(p: SpecPrimitive) -> Seq<SpecToken>
    decreases p,
{
    match p {
        SpecPrimitive::Ident(s) => seq![SpecToken::Ident(s)],
        SpecPrimitive::AtKeyword(s) => seq![SpecToken::AtKeyword(s)],
        SpecPrimitive::Hash(s) => seq![SpecToken::Hash(s)],
        SpecPrimitive::String(s) => seq![SpecToken::String(s)],
        SpecPrimitive::URL(s) => seq![SpecToken::URL(s)],
        SpecPrimitive::Delim(c) => seq![SpecToken::Delim(c)],
        SpecPrimitive::Number(v, r) => seq![SpecToken::Number(v, r)],
        SpecPrimitive::Percentage(v, r) => seq![SpecToken::Percentage(v, r)],
        SpecPrimitive::Dimension(v, r, u) => seq![SpecToken::Dimension(v, r, u)],
        SpecPrimitive::UnicodeRange(a, b) => seq![SpecToken::UnicodeRange(a, b)],
        SpecPrimitive::EmptyUnicodeRange => seq![SpecToken::EmptyUnicodeRange],
        SpecPrimitive::WhiteSpace => seq![SpecToken::WhiteSpace],
        SpecPrimitive::Comment => seq![SpecToken::Comment],
        SpecPrimitive::CDO => seq![SpecToken::CDO],
        SpecPrimitive::CDC => seq![SpecToken::CDC],
        SpecPrimitive::Colon => seq![SpecToken::Colon],
        SpecPrimitive::Semicolon => seq![SpecToken::Semicolon],
        SpecPrimitive::CloseBracket => seq![SpecToken::CloseBracket],
        SpecPrimitive::CloseParen => seq![SpecToken::CloseParen],
        SpecPrimitive::CloseBrace => seq![SpecToken::CloseBrace],
        SpecPrimitive::Function(name, args) => seq![SpecToken::Function(name)] + flat_args(args)
            + seq![SpecToken::CloseParen],
        SpecPrimitive::BracketBlock(items) => seq![SpecToken::OpenBracket] + flat_prims(items)
            + seq![SpecToken::CloseBracket],
        SpecPrimitive::ParenBlock(items) => seq![SpecToken::OpenParen] + flat_prims(items)
            + seq![SpecToken::CloseParen],
        SpecPrimitive::BraceBlock(items) => seq![SpecToken::OpenBrace] + flat_prims(items)
            + seq![SpecToken::CloseBrace],
    }
}

/// The token form of a sequence of trees, in order.
pub open spec fn flat_prims(s: Seq<SpecPrimitive>) -> Seq<SpecToken>
    decreases s,
{
    if s.len() == 0 {
        Seq::empty()
    } else {
        flat_prim(s[0]) + flat_prims(s.drop_first())
    }
}

/// The token form of an argument list: the arguments' token forms joined
/// by top-level commas.
pub open spec fn flat_args(args: Seq<Seq<SpecPrimitive>>) -> Seq<SpecToken>
    decreases args,
{
    if args.len() == 0 {
        Seq::empty()
    } else if args.len() == 1 {
        flat_prims(args[0])
    } else {
        flat_prims(args[0]) + seq![SpecToken::Delim(',')] + flat_args(args.drop_first())
    }
}

/// A function call with no arguments yields exactly one empty argument
/// sequence, whatever the function's name and whatever follows the call.
pub proof fn law_empty_function_argument_list(name: Seq<char>, rest: Seq<SpecToken>, quirks: bool)
    ensures
        parse_primitive(seq![SpecToken::Function(name), SpecToken::CloseParen] + rest, quirks)
            == Some((SpecPrimitive::Function(name, seq![Seq::<SpecPrimitive>::empty()]), 2nat)),
{
    let toks = seq![SpecToken::Function(name), SpecToken::CloseParen] + rest;
    assert(toks[0] == SpecToken::Function(name));
    assert(toks.drop_first() =~= seq![SpecToken::CloseParen] + rest);
    assert(toks.drop_first()[0] is CloseParen);
    assert(parse_arguments(toks.drop_first(), quirks, quirks && is_rect_name(name))
        == Some((seq![Seq::<SpecPrimitive>::empty()], 1nat)));
}

/// An argument list that ends in a top-level comma carries a trailing
/// empty argument: a comma directly before the closing parenthesis closes
/// the argument in progress and leaves one more, empty, behind it.
pub proof fn law_trailing_comma_empty_argument(rest: Seq<SpecToken>, quirks: bool, rewrite: bool)
    ensures
        parse_arguments(seq![SpecToken::Delim(','), SpecToken::CloseParen] + rest, quirks, rewrite)
            == Some((seq![Seq::<SpecPrimitive>::empty(), Seq::<SpecPrimitive>::empty()], 2nat)),
{
    let toks = seq![SpecToken::Delim(','), SpecToken::CloseParen] + rest;
    assert(toks[0] == SpecToken::Delim(','));
    assert(toks.drop_first() =~= seq![SpecToken::CloseParen] + rest);
    assert(toks.drop_first()[0] is CloseParen);
    assert(parse_arguments(toks.drop_first(), quirks, rewrite)
        == Some((seq![Seq::<SpecPrimitive>::empty()], 1nat)));
    assert(seq![Seq::<SpecPrimitive>::empty()] + seq![Seq::<SpecPrimitive>::empty()]
        =~= seq![Seq::<SpecPrimitive>::empty(), Seq::<SpecPrimitive>::empty()]);
}

/// A block whose ending token never comes is still returned with the
/// children accumulated so far: an empty stream, or an end-of-input
/// token, closes the block without a fault.
pub proof fn law_unclosed_block_tolerated(end: SpecToken, rest: Seq<SpecToken>, quirks: bool)
    ensures
        parse_block(Seq::empty(), end, quirks) == Some((Seq::<SpecPrimitive>::empty(), 0nat)),
        parse_block(seq![SpecToken::EOF] + rest, end, quirks) == Some((Seq::<SpecPrimitive>::empty(), 1nat)),
{
    let toks = seq![SpecToken::EOF] + rest;
    assert(toks[0] is EOF);
}

/// Inside a function's arguments a bare number becomes a `px` dimension
/// exactly when the rewrite applies (quirks mode on, enclosing function
/// named `rect`), and a plain number otherwise; value and verbatim
/// representation are preserved either way.
pub proof fn law_quirks_number_rewrite(v: NumericValue, r: Seq<char>, rest: Seq<SpecToken>, quirks: bool, rewrite: bool)
    ensures
        parse_arguments(seq![SpecToken::Number(v, r)] + rest, quirks, rewrite) matches Some((args, n))
            ==> args.len() >= 1 && args[0].len() >= 1
                && args[0][0] == (if rewrite {
                    SpecPrimitive::Dimension(v, r, px_unit())
                } else {
                    SpecPrimitive::Number(v, r)
                }),
{
    let toks = seq![SpecToken::Number(v, r)] + rest;
    assert(toks[0] == SpecToken::Number(v, r));
    assert(toks.drop_first() =~= rest);
    lemma_parse_arguments_consumed(rest, quirks, rewrite);
}

/// The quirks rewrite recognises `rect` ASCII case-insensitively: two
/// function names that both spell `rect`, in whatever case, parse to the
/// same argument lists; only the recorded name differs.
pub proof fn law_rect_case_insensitive(name1: Seq<char>, name2: Seq<char>, rest: Seq<SpecToken>, quirks: bool)
    requires
        is_rect_name(name1),
        is_rect_name(name2),
    ensures
        ({
            let a = parse_arguments(rest, quirks, quirks);
            &&& parse_primitive(seq![SpecToken::Function(name1)] + rest, quirks) == (match a {
                Some((args, n)) => Some((SpecPrimitive::Function(name1, args), (n + 1) as nat)),
                None => None,
            })
            &&& parse_primitive(seq![SpecToken::Function(name2)] + rest, quirks) == (match a {
                Some((args, n)) => Some((SpecPrimitive::Function(name2, args), (n + 1) as nat)),
                None => None,
            })
        }),
{
    let t1 = seq![SpecToken::Function(name1)] + rest;
    let t2 = seq![SpecToken::Function(name2)] + rest;
    assert(t1[0] == SpecToken::Function(name1));
    assert(t2[0] == SpecToken::Function(name2));
    assert(t1.drop_first() =~= rest);
    assert(t2.drop_first() =~= rest);
}

/// The token form of a tree starts with a token that neither ends a
/// block nor is discarded, and is a comma or number token exactly when
/// the tree is the matching delimiter or number.
proof fn lemma_flat_prim_head(p: SpecPrimitive)
    requires
        wf_prim(p),
    ensures
        flat_prim(p).len() >= 1,
        !(flat_prim(p)[0] is Comment),
        !(flat_prim(p)[0] is EOF),
        !(flat_prim(p)[0] is CloseBracket),
        !(flat_prim(p)[0] is CloseParen),
        !(flat_prim(p)[0] is CloseBrace),
        p matches SpecPrimitive::Delim(c) ==> flat_prim(p)[0] == SpecToken::Delim(c),
        !(p is Delim) ==> !(flat_prim(p)[0] is Delim),
        p matches SpecPrimitive::Number(v, r) ==> flat_prim(p)[0] == SpecToken::Number(v, r),
        !(p is Number) ==> !(flat_prim(p)[0] is Number),
{
    match p {
        SpecPrimitive::Function(name, args) => {
            assert(flat_prim(p)[0] == SpecToken::Function(name));
        },
        SpecPrimitive::BracketBlock(items) => {
            assert(flat_prim(p)[0] == SpecToken::OpenBracket);
        },
        SpecPrimitive::ParenBlock(items) => {
            assert(flat_prim(p)[0] == SpecToken::OpenParen);
        },
        SpecPrimitive::BraceBlock(items) => {
            assert(flat_prim(p)[0] == SpecToken::OpenBrace);
        },
        _ => {},
    }
}

/// Parsing one tree's token form, whatever follows it, returns exactly
/// that tree and consumes exactly its tokens.
proof fn lemma_roundtrip_prim(p: SpecPrimitive, rest: Seq<SpecToken>)
    requires
        wf_prim(p),
    ensures
        parse_primitive(flat_prim(p) + rest, false) == Some((p, flat_prim(p).len() as nat)),
    decreases p, 0int,
{
    let toks = flat_prim(p) + rest;
    lemma_flat_prim_head(p);
    match p {
        SpecPrimitive::Function(name, args) => {
            assert(toks[0] == SpecToken::Function(name));
            assert(toks.drop_first() =~= flat_args(args) + seq![SpecToken::CloseParen] + rest);
            lemma_roundtrip_args(args, rest);
            assert(parse_arguments(toks.drop_first(), false, false && is_rect_name(name))
                == Some((args, (flat_args(args).len() + 1) as nat)));
            assert(flat_prim(p).len() == flat_args(args).len() + 2);
        },
        SpecPrimitive::BracketBlock(items) => {
            assert(toks[0] == SpecToken::OpenBracket);
            assert(toks.drop_first() =~= flat_prims(items) + seq![SpecToken::CloseBracket] + rest);
            lemma_roundtrip_block(items, SpecToken::CloseBracket, rest);
            assert(flat_prim(p).len() == flat_prims(items).len() + 2);
        },
        SpecPrimitive::ParenBlock(items) => {
            assert(toks[0] == SpecToken::OpenParen);
            assert(toks.drop_first() =~= flat_prims(items) + seq![SpecToken::CloseParen] + rest);
            lemma_roundtrip_block(items, SpecToken::CloseParen, rest);
            assert(flat_prim(p).len() == flat_prims(items).len() + 2);
        },
        SpecPrimitive::BraceBlock(items) => {
            assert(toks[0] == SpecToken::OpenBrace);
            assert(toks.drop_first() =~= flat_prims(items) + seq![SpecToken::CloseBrace] + rest);
            lemma_roundtrip_block(items, SpecToken::CloseBrace, rest);
            assert(flat_prim(p).len() == flat_prims(items).len() + 2);
        },
        _ => {
            assert(toks[0] == flat_prim(p)[0]);
        },
    }
}

/// Parsing a block body built from well-formed trees followed by the
/// block's ending token returns exactly those trees, in order.
proof fn lemma_roundtrip_block(s: Seq<SpecPrimitive>, end: SpecToken, rest: Seq<SpecToken>)
    requires
        wf_prims(s),
        is_closer(end),
    ensures
        parse_block(flat_prims(s) + seq![end] + rest, end, false) == Some((
            s,
            (flat_prims(s).len() + 1) as nat,
        )),
    decreases s, 0int,
{
    let toks = flat_prims(s) + seq![end] + rest;
    if s.len() == 0 {
        assert(toks =~= seq![end] + rest);
        assert(toks[0] == end);
        assert(s =~= Seq::<SpecPrimitive>::empty());
    } else {
        let p = s[0];
        let tail = flat_prims(s.drop_first()) + seq![end] + rest;
        lemma_flat_prim_head(p);
        assert(toks =~= flat_prim(p) + tail);
        assert(toks[0] == flat_prim(p)[0]);
        lemma_roundtrip_prim(p, tail);
        let np = flat_prim(p).len();
        assert(parse_primitive(toks, false) == Some((p, np as nat)));
        assert(toks.skip(np as int) =~= tail);
        lemma_roundtrip_block(s.drop_first(), end, rest);
        assert(flat_prims(s).len() == np + flat_prims(s.drop_first()).len());
        assert(seq![p] + s.drop_first() =~= s);
    }
}

/// Prepending one argument's token form to a stream prepends its trees
/// to the first argument that the stream parses to.
proof fn lemma_roundtrip_one_arg(
    arg: Seq<SpecPrimitive>,
    tail: Seq<SpecToken>,
    targs: Seq<Seq<SpecPrimitive>>,
    tn: nat,
)
    requires
        wf_arg(arg),
        parse_arguments(tail, false, false) == Some((targs, tn)),
        targs.len() >= 1,
    ensures
        parse_arguments(flat_prims(arg) + tail, false, false) == Some((
            seq![arg + targs[0]] + targs.drop_first(),
            (flat_prims(arg).len() + tn) as nat,
        )),
    decreases arg, 1int,
{
    let toks = flat_prims(arg) + tail;
    if arg.len() == 0 {
        assert(toks =~= tail);
        assert(arg + targs[0] =~= targs[0]);
        assert(seq![targs[0]] + targs.drop_first() =~= targs);
    } else {
        let p = arg[0];
        let tail2 = flat_prims(arg.drop_first()) + tail;
        lemma_flat_prim_head(p);
        assert(toks =~= flat_prim(p) + tail2);
        assert(toks[0] == flat_prim(p)[0]);
        lemma_roundtrip_one_arg(arg.drop_first(), tail, targs, tn);
        let inner = seq![arg.drop_first() + targs[0]] + targs.drop_first();
        let m = (flat_prims(arg.drop_first()).len() + tn) as nat;
        assert(parse_arguments(tail2, false, false) == Some((inner, m)));
        match p {
            SpecPrimitive::Number(v, r) => {
                assert(toks[0] == SpecToken::Number(v, r));
                assert(toks.drop_first() =~= tail2);
                assert(seq![p] + (arg.drop_first() + targs[0]) =~= arg + targs[0]);
                assert(seq![seq![p] + inner[0]] + inner.drop_first() =~= seq![arg + targs[0]]
                    + targs.drop_first());
                assert(flat_prims(arg).len() == 1 + flat_prims(arg.drop_first()).len());
            },
            _ => {
                assert(p != SpecPrimitive::Delim(','));
                assert(!(toks[0] is Number));
                assert(toks[0] != SpecToken::Delim(','));
                lemma_roundtrip_prim(p, tail2);
                let np = flat_prim(p).len();
                assert(parse_primitive(toks, false) == Some((p, np as nat)));
                assert(toks.skip(np as int) =~= tail2);
                assert(seq![p] + (arg.drop_first() + targs[0]) =~= arg + targs[0]);
                assert(seq![seq![p] + inner[0]] + inner.drop_first() =~= seq![arg + targs[0]]
                    + targs.drop_first());
                assert(flat_prims(arg).len() == np + flat_prims(arg.drop_first()).len());
            },
        }
    }
}

/// Parsing an argument list's token form followed by a close-paren
/// returns exactly those arguments, in order.
proof fn lemma_roundtrip_args(args: Seq<Seq<SpecPrimitive>>, rest: Seq<SpecToken>)
    requires
        args.len() >= 1,
        wf_args(args),
    ensures
        parse_arguments(flat_args(args) + seq![SpecToken::CloseParen] + rest, false, false)
            == Some((args, (flat_args(args).len() + 1) as nat)),
    decreases args, 0int,
{
    if args.len() == 1 {
        let close = seq![SpecToken::CloseParen] + rest;
        assert(parse_arguments(close, false, false) == Some((
            seq![Seq::<SpecPrimitive>::empty()],
            1nat,
        )));
        lemma_roundtrip_one_arg(args[0], close, seq![Seq::<SpecPrimitive>::empty()], 1nat);
        assert(flat_args(args) + seq![SpecToken::CloseParen] + rest =~= flat_prims(args[0])
            + close);
        assert(args[0] + Seq::<SpecPrimitive>::empty() =~= args[0]);
        assert(seq![args[0]] + seq![Seq::<SpecPrimitive>::empty()].drop_first() =~= args);
    } else {
        lemma_roundtrip_args(args.drop_first(), rest);
        let after = flat_args(args.drop_first()) + seq![SpecToken::CloseParen] + rest;
        let comma_stream = seq![SpecToken::Delim(',')] + after;
        assert(comma_stream[0] == SpecToken::Delim(','));
        assert(comma_stream.drop_first() =~= after);
        let dargs = args.drop_first();
        assert(parse_arguments(comma_stream, false, false) == Some((
            seq![Seq::<SpecPrimitive>::empty()] + dargs,
            (flat_args(dargs).len() + 2) as nat,
        )));
        lemma_roundtrip_one_arg(
            args[0],
            comma_stream,
            seq![Seq::<SpecPrimitive>::empty()] + dargs,
            (flat_args(dargs).len() + 2) as nat,
        );
        assert(flat_args(args) + seq![SpecToken::CloseParen] + rest =~= flat_prims(args[0])
            + comma_stream);
        assert(args[0] + (seq![Seq::<SpecPrimitive>::empty()] + dargs)[0] =~= args[0]);
        assert(seq![args[0]] + (seq![Seq::<SpecPrimitive>::empty()] + dargs).drop_first() =~= args);
        assert(flat_args(args).len() == flat_prims(args[0]).len() + 1 + flat_args(dargs).len());
    }
}

/// Parsing the token form of a sequence of well-formed trees returns
/// exactly that sequence.
proof fn lemma_roundtrip_list(s: Seq<SpecPrimitive>)
    requires
        wf_prims(s),
    ensures
        parse_primitive_list(flat_prims(s), false) == Some((s, flat_prims(s).len() as nat)),
    decreases s,
{
    if s.len() == 0 {
        assert(flat_prims(s) =~= Seq::<SpecToken>::empty());
        assert(s =~= Seq::<SpecPrimitive>::empty());
    } else {
        let p = s[0];
        let tail = flat_prims(s.drop_first());
        lemma_flat_prim_head(p);
        assert(flat_prims(s) =~= flat_prim(p) + tail);
        assert(flat_prims(s)[0] == flat_prim(p)[0]);
        lemma_roundtrip_prim(p, tail);
        let np = flat_prim(p).len();
        assert(parse_primitive(flat_prims(s), false) == Some((p, np as nat)));
        assert(flat_prims(s).skip(np as int) =~= tail);
        lemma_roundtrip_list(s.drop_first());
        assert(seq![p] + s.drop_first() =~= s);
    }
}

/// The returned tree is the input's structure, exactly: parsing the
/// token form of any well-formed sequence of trees gives back that
/// sequence, so the nesting depth of every block and function, and the
/// source order of every child, survive the round trip.
pub proof fn law_structure_round_trip(prims: Seq<SpecPrimitive>)
    requires
        wf_prims(prims),
    ensures
        parse_primitive_list(flat_prims(prims), false) == Some((
            prims,
            flat_prims(prims).len() as nat,
        )),
{
    lemma_roundtrip_list(prims);
}

} // verus!
