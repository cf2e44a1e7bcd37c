//! The parser: one-token lookahead over the token source, the error sink,
//! and the consumption functions that build the primitive tree.

use vstd::prelude::*;
use vstd::string::*;
use crate::tokens::{Token, TokenResult, SpecToken};
use crate::primitives::{
    Primitive, SpecPrimitive, prim_view, prim_seq_view, arg_seq_view, lemma_prim_seq_view_push,
    lemma_arg_seq_view_push,
};
use crate::model::{
    is_preserved, preserved_primitive, is_rect_name, is_closer, px_unit, parse_primitive,
    parse_block, parse_arguments, parse_primitive_list, parsed, consumed,
    lemma_parse_primitive_consumed, lemma_parse_block_consumed, lemma_parse_arguments_consumed,
    lemma_parse_primitive_list_consumed,
};

verus! {

/// The errors attached to a sequence of token results, in order.
pub open spec fn errs_of(s: Seq<TokenResult>) -> Seq<String>
    decreases s.len(),
{
    if s.len() == 0 {
        Seq::empty()
    } else {
        (match s[0].error {
            Some(e) => seq![e],
            None => Seq::empty(),
        }) + errs_of(s.drop_first())
    }
}

/// The tokens of a sequence of token results, in order.
pub open spec fn toks_of(s: Seq<TokenResult>) -> Seq<SpecToken> {
    Seq::new(s.len(), |i: int| s[i].token@)
}

/// Owns the token source (as the ordered sequence of results it will
/// yield), the quirks-mode flag, the one-slot lookahead buffer, and the
/// append-only list of lexical error messages.
pub struct Parser {
    /// unread token results, in reverse order: the last element is next
    source: Vec<TokenResult>,
    quirks_mode: bool,
    current_token: Option<Token>,
    errors: Vec<String>,
}

impl Parser {
    /// The unread part of the token source, in the order it will be read.
    pub closed spec fn src(&self) -> Seq<TokenResult> {
        self.source@.reverse()
    }

    /// The lookahead slot: at most one token read but not yet consumed.
    pub closed spec fn lookahead(&self) -> Option<Token> {
        self.current_token
    }

    /// The quirks-mode flag, immutable for the parser's lifetime.
    pub closed spec fn quirks(&self) -> bool {
        self.quirks_mode
    }

    /// The lexical error messages recorded so far, in encounter order.
    pub closed spec fn error_log(&self) -> Seq<String> {
        self.errors@
    }

    /// The tokens still to be consumed: the buffered token, if any,
    /// followed by the unread part of the source.
    pub open spec fn stream(&self) -> Seq<SpecToken> {
        (match self.lookahead() {
            Some(t) => seq![t@],
            None => Seq::empty(),
        }) + toks_of(self.src())
    }

    /// Read-only access to the accumulated error messages.
    pub fn errors(&self) -> (e: &Vec<String>)
        ensures
            e@ == self.error_log(),
    {
        &self.errors
    }
}

/// Builds a parser that will consume the given token results in order,
/// with an empty lookahead slot and an empty error list.
pub fn make_parser(results: Vec<TokenResult>, quirks_mode: bool) -> (p: Parser)
    ensures
        p.src() == results@,
        p.lookahead() is None,
        p.error_log() == Seq::<String>::empty(),
        p.quirks() == quirks_mode,
{
    let ghost all = results@;
    let mut forward = results;
    let mut source: Vec<TokenResult> = Vec::new();
    proof {
        assert(all =~= forward@ + source@.reverse());
    }
    while forward.len() > 0
        invariant
            all == forward@ + source@.reverse(),
        decreases forward.len(),
    {
        let ghost fwd = forward@;
        let ghost rev = source@;
        let r = forward.pop().unwrap();
        source.push(r);
        proof {
            assert(source@.reverse() =~= seq![fwd.last()] + rev.reverse());
            assert(forward@ + source@.reverse() =~= all);
        }
    }
    let p = Parser {
        source,
        quirks_mode,
        current_token: None,
        errors: Vec::new(),
    };
    proof {
        assert(p.src() =~= all);
    }
    p
}

/// Pulls the next token: the buffered one if the lookahead slot is full,
/// otherwise the next token from the source, whose attached lexical
/// error, if any, is appended to the error log. An exhausted source
/// yields `EOF` and changes nothing.
pub(crate) fn consume_next_token(parser: &mut Parser) -> (t: Token)
    ensures
        final(parser).quirks() == old(parser).quirks(),
        final(parser).lookahead() is None,
        match old(parser).lookahead() {
            Some(tok) => {
                &&& t == tok
                &&& final(parser).src() == old(parser).src()
                &&& final(parser).error_log() == old(parser).error_log()
            },
            None => {
                if old(parser).src().len() > 0 {
                    &&& t == old(parser).src()[0].token
                    &&& final(parser).src() == old(parser).src().drop_first()
                    &&& final(parser).error_log() == old(parser).error_log() + (match old(parser).src()[0].error {
                        Some(e) => seq![e],
                        None => Seq::<String>::empty(),
                    })
                } else {
                    &&& t is EOF
                    &&& final(parser).src() == old(parser).src()
                    &&& final(parser).error_log() == old(parser).error_log()
                }
            },
        },
        old(parser).stream().len() == 0 ==> t is EOF && final(parser).stream() == old(parser).stream(),
        old(parser).stream().len() > 0 ==> t@ == old(parser).stream()[0] && final(parser).stream() == old(parser).stream().drop_first(),
        final(parser).src().len() <= old(parser).src().len(),
        final(parser).src() == old(parser).src().skip(old(parser).src().len() - final(parser).src().len()),
        final(parser).error_log() + errs_of(final(parser).src()) == old(parser).error_log() + errs_of(old(parser).src()),
{
    let ghost src0 = old(parser).src();
    proof {
        assert(src0.skip(0) =~= src0);
    }
    let buffered = parser.current_token.take();
    match buffered {
        Some(token) => {
            proof {
                assert(parser.stream() =~= old(parser).stream().drop_first());
            }
            token
        },
        None => {
            let pulled = parser.source.pop();
            match pulled {
                Some(tr) => {
                    proof {
                        assert(src0.len() > 0);
                        assert(tr == src0[0]);
                        assert(parser.src() =~= src0.drop_first());
                        assert(src0.drop_first() =~= src0.subrange(1, src0.len() as int));
                        assert(src0.drop_first() =~= src0.skip(1));
                    }
                    let TokenResult { token, error } = tr;
                    match error {
                        Some(e) => parser.errors.push(e),
                        None => {},
                    }
                    proof {
                        assert(errs_of(src0) == (match src0[0].error {
                            Some(e) => seq![e],
                            None => Seq::<String>::empty(),
                        }) + errs_of(src0.drop_first()));
                        assert(parser.error_log() + errs_of(parser.src()) =~= old(parser).error_log() + errs_of(src0));
                        assert(old(parser).stream() =~= toks_of(src0));
                        assert(toks_of(src0)[0] == src0[0].token@);
                        assert(parser.stream() =~= old(parser).stream().drop_first());
                    }
                    token
                },
                None => {
                    proof {
                        assert(parser.src() =~= src0);
                        assert(parser.stream() =~= old(parser).stream());
                    }
                    Token::EOF
                },
            }
        },
    }
}

/// Stores one token for the next pull. The lookahead slot must be empty:
/// pushing back twice in a row is a consumer bug, ruled out here rather
/// than detected at run time.
pub(crate) fn reconsume_token(parser: &mut Parser, token: Token)
    requires
        old(parser).lookahead() is None,
    ensures
        final(parser).lookahead() == Some(token),
        final(parser).src() == old(parser).src(),
        final(parser).error_log() == old(parser).error_log(),
        final(parser).quirks() == old(parser).quirks(),
        final(parser).stream() == seq![token@] + old(parser).stream(),
{
    parser.current_token = Some(token);
    proof {
        assert(parser.stream() =~= seq![token@] + old(parser).stream());
    }
}

/// Skipping twice is skipping once by the sum.
proof fn lemma_skip_skip<A>(s: Seq<A>, a: int, b: int)
    requires
        0 <= a,
        0 <= b,
        a + b <= s.len(),
    ensures
        s.skip(a).skip(b) == s.skip(a + b),
{
    assert(s.skip(a).skip(b) =~= s.skip(a + b));
}

/// A suffix of a suffix of `s` is a suffix of `s`.
proof fn lemma_suffix_of_suffix<A>(s: Seq<A>, t: Seq<A>, u: Seq<A>)
    requires
        t.len() <= s.len(),
        t == s.skip(s.len() - t.len()),
        u.len() <= t.len(),
        u == t.skip(t.len() - u.len()),
    ensures
        u.len() <= s.len(),
        u == s.skip(s.len() - u.len()),
{
    lemma_skip_skip(s, s.len() - t.len(), t.len() - u.len());
}

/// How every consumption step leaves the parser: the first `n` tokens of
/// the stream are gone, the lookahead slot ends empty, the quirks flag is
/// untouched, the unread source is a suffix of what it was, and every
/// lexical error is either already recorded or still pending, in order.
/// Together with the stream clause this pins the whole new state: with an
/// empty lookahead slot the suffix's length equals the new stream's, and
/// the error conservation equation then fixes the error log exactly.
pub open spec fn advanced(pre: Parser, post: Parser, n: nat) -> bool {
    &&& post.quirks() == pre.quirks()
    &&& post.lookahead() is None
    &&& n <= pre.stream().len()
    &&& post.stream() == pre.stream().skip(n as int)
    &&& post.src().len() <= pre.src().len()
    &&& post.src() == pre.src().skip(pre.src().len() - post.src().len())
    &&& post.error_log() + errs_of(post.src()) == pre.error_log() + errs_of(pre.src())
}

/// Maps a preserved token to the primitive that carries the same payload.
/// Only preserved tokens may reach this mapper; every other token kind is
/// special-cased, or excluded, by the callers.
pub(crate) fn preserved_token_to_primitive(token: Token) -> (p: Primitive)
    requires
        is_preserved(token@),
    ensures
        prim_view(p) == preserved_primitive(token@),
{
    match token {
        Token::Ident(s) => Primitive::Ident(s),
        Token::AtKeyword(s) => Primitive::AtKeyword(s),
        Token::Hash(s) => Primitive::Hash(s),
        Token::String(s) => Primitive::String(s),
        Token::URL(s) => Primitive::URL(s),
        Token::Delim(c) => Primitive::Delim(c),
        Token::Number(v, r) => Primitive::Number(v, r),
        Token::Percentage(v, r) => Primitive::Percentage(v, r),
        Token::Dimension(v, r, u) => Primitive::Dimension(v, r, u),
        Token::UnicodeRange(a, b) => Primitive::UnicodeRange(a, b),
        Token::EmptyUnicodeRange => Primitive::EmptyUnicodeRange,
        Token::WhiteSpace => Primitive::WhiteSpace,
        Token::Colon => Primitive::Colon,
        Token::Semicolon => Primitive::Semicolon,
        _ => vstd::pervasive::unreached(),
    }
}

/// Whether `token` is the ending token of the block being consumed.
/// Ending tokens are closers and carry no payload, so comparing the kind
/// is comparing the whole token.
fn is_ending(token: &Token, ending: &Token) -> (b: bool)
    requires
        is_closer(ending@),
    ensures
        b == (token@ == ending@),
{
    match (token, ending) {
        (Token::CloseBracket, Token::CloseBracket) => true,
        (Token::CloseParen, Token::CloseParen) => true,
        (Token::CloseBrace, Token::CloseBrace) => true,
        _ => false,
    }
}

/// ASCII case-insensitive comparison of a function name with `rect`.
fn is_rect(name: &String) -> (b: bool)
    ensures
        b == is_rect_name(name@),
{
    let s = name.as_str();
    if s.unicode_len() != 4 {
        return false;
    }
    let c0 = s.get_char(0);
    let c1 = s.get_char(1);
    let c2 = s.get_char(2);
    let c3 = s.get_char(3);
    (c0 == 'r' || c0 == 'R') && (c1 == 'e' || c1 == 'E') && (c2 == 'c' || c2 == 'C') && (c3 == 't'
        || c3 == 'T')
}

/// The unit string written by the quirks-mode rewrite.
fn px_string() -> (s: String)
    ensures
        s@ == px_unit(),
{
    let s = "px".to_owned();
    proof {
        reveal_strlit("px");
        assert(s@ =~= px_unit());
    }
    s
}

/// Consumes exactly one primitive, arbitrarily deep: a simple block after
/// an opener, a function after a function token, and otherwise one mapped
/// preserved token.
#[verifier::rlimit(100)]
pub(crate) fn consume_primitive(parser: &mut Parser) -> (p: Primitive)
    requires
        parse_primitive(old(parser).stream(), old(parser).quirks()) is Some,
    ensures
        advanced(*old(parser), *final(parser), consumed(parse_primitive(old(parser).stream(), old(parser).quirks()))),
        prim_view(p) == parsed(parse_primitive(old(parser).stream(), old(parser).quirks())),
    decreases parser.stream().len(), 0int,
{
    let ghost toks = old(parser).stream();
    let ghost q = old(parser).quirks();
    let ghost pre_src = old(parser).src();
    proof {
        lemma_parse_primitive_consumed(toks, q);
        assert(toks.len() > 0);
    }
    let token = consume_next_token(parser);
    let ghost src1 = parser.src();
    proof {
        assert(token@ == toks[0]);
        assert(toks.drop_first() =~= toks.skip(1));
    }
    match token {
        Token::OpenBracket => {
            proof {
                assert(parse_block(toks.skip(1), SpecToken::CloseBracket, q) is Some);
                lemma_parse_block_consumed(toks.skip(1), SpecToken::CloseBracket, q);
            }
            let items = consume_simple_block(parser, Token::CloseBracket);
            proof {
                let nb = consumed(parse_block(toks.skip(1), SpecToken::CloseBracket, q));
                lemma_skip_skip(toks, 1, nb as int);
                lemma_suffix_of_suffix(pre_src, src1, parser.src());
            }
            Primitive::BracketBlock(items)
        },
        Token::OpenParen => {
            proof {
                assert(parse_block(toks.skip(1), SpecToken::CloseParen, q) is Some);
                lemma_parse_block_consumed(toks.skip(1), SpecToken::CloseParen, q);
            }
            let items = consume_simple_block(parser, Token::CloseParen);
            proof {
                let nb = consumed(parse_block(toks.skip(1), SpecToken::CloseParen, q));
                lemma_skip_skip(toks, 1, nb as int);
                lemma_suffix_of_suffix(pre_src, src1, parser.src());
            }
            Primitive::ParenBlock(items)
        },
        Token::OpenBrace => {
            proof {
                assert(parse_block(toks.skip(1), SpecToken::CloseBrace, q) is Some);
                lemma_parse_block_consumed(toks.skip(1), SpecToken::CloseBrace, q);
            }
            let items = consume_simple_block(parser, Token::CloseBrace);
            proof {
                let nb = consumed(parse_block(toks.skip(1), SpecToken::CloseBrace, q));
                lemma_skip_skip(toks, 1, nb as int);
                lemma_suffix_of_suffix(pre_src, src1, parser.src());
            }
            Primitive::BraceBlock(items)
        },
        Token::Function(name) => {
            let ghost nm = name@;
            proof {
                assert(toks[0] == SpecToken::Function(nm));
                assert(parse_arguments(toks.skip(1), q, q && is_rect_name(nm)) is Some);
                lemma_parse_arguments_consumed(toks.skip(1), q, q && is_rect_name(nm));
            }
            let f = consume_function(parser, name);
            proof {
                let na = consumed(parse_arguments(toks.skip(1), q, q && is_rect_name(nm)));
                lemma_skip_skip(toks, 1, na as int);
                lemma_suffix_of_suffix(pre_src, src1, parser.src());
            }
            f
        },
        token => {
            proof {
                assert(is_preserved(toks[0]));
                assert(is_preserved(token@));
            }
            preserved_token_to_primitive(token)
        },
    }
}

/// Consumes the body of a simple block, given the block's ending token:
/// primitives until that token, an end-of-input token, or the stream runs
/// out; comments are discarded. A block missing its ending token is
/// returned with the children accumulated so far.
#[verifier::loop_isolation(false)]
#[verifier::rlimit(100)]
pub(crate) fn consume_simple_block(parser: &mut Parser, ending_token: Token) -> (r: Vec<Primitive>)
    requires
        is_closer(ending_token@),
        parse_block(old(parser).stream(), ending_token@, old(parser).quirks()) is Some,
    ensures
        advanced(*old(parser), *final(parser), consumed(parse_block(old(parser).stream(), ending_token@, old(parser).quirks()))),
        prim_seq_view(r@) == parsed(parse_block(old(parser).stream(), ending_token@, old(parser).quirks())),
    decreases parser.stream().len(), 1int,
{
    let ghost toks = old(parser).stream();
    let ghost q = old(parser).quirks();
    let ghost end = ending_token@;
    let ghost pre_src = old(parser).src();
    let ghost pre_log = old(parser).error_log();
    let ghost total = parsed(parse_block(toks, end, q));
    let ghost n_total = consumed(parse_block(toks, end, q));
    let mut value: Vec<Primitive> = Vec::new();
    proof {
        lemma_parse_block_consumed(toks, end, q);
        assert(toks.skip(0) =~= toks);
        assert(pre_src.skip(0) =~= pre_src);
        assert(Seq::<SpecPrimitive>::empty() + total =~= total);
    }
    let mut done = false;
    while !done
        invariant
            parser.quirks() == q,
            parser.stream().len() <= toks.len(),
            parser.stream() == toks.skip(toks.len() - parser.stream().len()),
            parser.src().len() <= pre_src.len(),
            parser.src() == pre_src.skip(pre_src.len() - parser.src().len()),
            parser.error_log() + errs_of(parser.src()) == pre_log + errs_of(pre_src),
            !done ==> parse_block(parser.stream(), end, q) is Some,
            !done ==> total == prim_seq_view(value@) + parsed(parse_block(parser.stream(), end, q)),
            !done ==> n_total == (toks.len() - parser.stream().len()) + consumed(parse_block(parser.stream(), end, q)),
            done ==> parser.lookahead() is None,
            done ==> prim_seq_view(value@) == total,
            done ==> n_total <= toks.len(),
            done ==> parser.stream() == toks.skip(n_total as int),
        decreases parser.stream().len(), (if done { 0int } else { 1int }),
    {
        let ghost cs = parser.stream();
        let ghost csrc = parser.src();
        let token = consume_next_token(parser);
        proof {
            lemma_suffix_of_suffix(pre_src, csrc, parser.src());
            if cs.len() > 0 {
                assert(cs.drop_first() =~= cs.skip(1));
                lemma_skip_skip(toks, toks.len() - cs.len(), 1);
            }
        }
        match token {
            Token::Comment => {
                proof {
                    assert(cs.len() > 0 && cs[0] is Comment);
                    assert(parsed(parse_block(cs, end, q)) == parsed(parse_block(cs.skip(1), end, q)));
                    assert(consumed(parse_block(cs, end, q)) == 1 + consumed(parse_block(cs.skip(1), end, q)));
                }
            },
            Token::EOF => {
                proof {
                    if cs.len() > 0 {
                        assert(cs[0] is EOF);
                    }
                    assert(parsed(parse_block(cs, end, q)) =~= Seq::<SpecPrimitive>::empty());
                    assert(prim_seq_view(value@) + Seq::<SpecPrimitive>::empty() =~= prim_seq_view(value@));
                }
                done = true;
            },
            token => {
                if is_ending(&token, &ending_token) {
                    proof {
                        assert(cs.len() > 0 && cs[0] == end);
                        assert(parsed(parse_block(cs, end, q)) =~= Seq::<SpecPrimitive>::empty());
                        assert(prim_seq_view(value@) + Seq::<SpecPrimitive>::empty() =~= prim_seq_view(value@));
                    }
                    done = true;
                } else {
                    proof {
                        assert(cs.len() > 0);
                        assert(!(cs[0] is Comment) && !(cs[0] is EOF) && cs[0] != end);
                        assert(parse_primitive(cs, q) is Some);
                    }
                    reconsume_token(parser, token);
                    proof {
                        assert(parser.stream() =~= cs);
                    }
                    let ghost src1 = parser.src();
                    let ghost vv = value@;
                    let ghost np = consumed(parse_primitive(cs, q));
                    let ghost psp = parsed(parse_primitive(cs, q));
                    let ghost rest = parsed(parse_block(cs.skip(np as int), end, q));
                    let prim = consume_primitive(parser);
                    value.push(prim);
                    proof {
                        lemma_prim_seq_view_push(vv, prim);
                        lemma_suffix_of_suffix(pre_src, src1, parser.src());
                        lemma_skip_skip(toks, toks.len() - cs.len(), np as int);
                        assert(parsed(parse_block(cs, end, q)) == seq![psp] + rest);
                        assert(consumed(parse_block(cs, end, q)) == np + consumed(parse_block(cs.skip(np as int), end, q)));
                        assert(prim_seq_view(vv) + (seq![psp] + rest) =~= prim_seq_view(vv).push(psp) + rest);
                    }
                }
            },
        }
    }
    value
}

/// Consumes a function's arguments after its function token: primitives
/// split on top-level commas, until a close-paren or the end of the
/// input. The final argument in progress is always emitted, even when
/// empty. In quirks mode, a bare number argument of `rect` becomes a
/// `px` dimension.
#[verifier::loop_isolation(false)]
#[verifier::rlimit(100)]
pub(crate) fn consume_function(parser: &mut Parser, name: String) -> (p: Primitive)
    requires
        parse_arguments(old(parser).stream(), old(parser).quirks(), old(parser).quirks() && is_rect_name(name@)) is Some,
    ensures
        advanced(*old(parser), *final(parser), consumed(parse_arguments(old(parser).stream(), old(parser).quirks(), old(parser).quirks() && is_rect_name(name@)))),
        prim_view(p) == SpecPrimitive::Function(name@, parsed(parse_arguments(old(parser).stream(), old(parser).quirks(), old(parser).quirks() && is_rect_name(name@)))),
    decreases parser.stream().len(), 1int,
{
    let ghost toks = old(parser).stream();
    let ghost q = old(parser).quirks();
    let ghost nm = name@;
    let ghost rw = q && is_rect_name(nm);
    let ghost pre_src = old(parser).src();
    let ghost pre_log = old(parser).error_log();
    let ghost args_total = parsed(parse_arguments(toks, q, rw));
    let ghost n_total = consumed(parse_arguments(toks, q, rw));
    let rewrite = parser.quirks_mode && is_rect(&name);
    let mut current_argument: Vec<Primitive> = Vec::new();
    let mut arguments: Vec<Vec<Primitive>> = Vec::new();
    proof {
        assert(rewrite == rw);
        lemma_parse_arguments_consumed(toks, q, rw);
        assert(toks.skip(0) =~= toks);
        assert(pre_src.skip(0) =~= pre_src);
        assert(seq![args_total[0]] + args_total.drop_first() =~= args_total);
        assert(Seq::<SpecPrimitive>::empty() + args_total[0] =~= args_total[0]);
        assert(
            Seq::<Seq<SpecPrimitive>>::empty() + (seq![Seq::<SpecPrimitive>::empty() + args_total[0]] + args_total.drop_first())
            =~= seq![args_total[0]] + args_total.drop_first()
        );
    }
    let mut done = false;
    while !done
        invariant
            parser.quirks() == q,
            rewrite == rw,
            parser.stream().len() <= toks.len(),
            parser.stream() == toks.skip(toks.len() - parser.stream().len()),
            parser.src().len() <= pre_src.len(),
            parser.src() == pre_src.skip(pre_src.len() - parser.src().len()),
            parser.error_log() + errs_of(parser.src()) == pre_log + errs_of(pre_src),
            !done ==> parse_arguments(parser.stream(), q, rw) is Some,
            !done ==> parsed(parse_arguments(parser.stream(), q, rw)).len() >= 1,
            !done ==> args_total == arg_seq_view(arguments@) + (seq![prim_seq_view(current_argument@) + parsed(parse_arguments(parser.stream(), q, rw))[0]] + parsed(parse_arguments(parser.stream(), q, rw)).drop_first()),
            !done ==> n_total == (toks.len() - parser.stream().len()) + consumed(parse_arguments(parser.stream(), q, rw)),
            done ==> parser.lookahead() is None,
            done ==> args_total == arg_seq_view(arguments@).push(prim_seq_view(current_argument@)),
            done ==> n_total <= toks.len(),
            done ==> parser.stream() == toks.skip(n_total as int),
        decreases parser.stream().len(), (if done { 0int } else { 1int }),
    {
        let ghost cs = parser.stream();
        let ghost csrc = parser.src();
        let ghost va = arguments@;
        let ghost ca = current_argument@;
        let ghost rem = parsed(parse_arguments(cs, q, rw));
        let token = consume_next_token(parser);
        proof {
            lemma_suffix_of_suffix(pre_src, csrc, parser.src());
            if cs.len() > 0 {
                assert(cs.drop_first() =~= cs.skip(1));
                lemma_skip_skip(toks, toks.len() - cs.len(), 1);
            }
        }
        match token {
            Token::Comment => {
                proof {
                    assert(cs.len() > 0 && cs[0] is Comment);
                    assert(parsed(parse_arguments(cs, q, rw)) == parsed(parse_arguments(cs.skip(1), q, rw)));
                    assert(consumed(parse_arguments(cs, q, rw)) == 1 + consumed(parse_arguments(cs.skip(1), q, rw)));
                }
            },
            Token::EOF => {
                proof {
                    if cs.len() > 0 {
                        assert(cs[0] is EOF);
                    }
                    assert(rem =~= seq![Seq::<SpecPrimitive>::empty()]);
                    assert(prim_seq_view(ca) + rem[0] =~= prim_seq_view(ca));
                    assert(
                        arg_seq_view(va) + (seq![prim_seq_view(ca) + rem[0]] + rem.drop_first())
                        =~= arg_seq_view(va).push(prim_seq_view(ca))
                    );
                }
                done = true;
            },
            Token::CloseParen => {
                proof {
                    assert(cs.len() > 0 && cs[0] is CloseParen);
                    assert(rem =~= seq![Seq::<SpecPrimitive>::empty()]);
                    assert(prim_seq_view(ca) + rem[0] =~= prim_seq_view(ca));
                    assert(
                        arg_seq_view(va) + (seq![prim_seq_view(ca) + rem[0]] + rem.drop_first())
                        =~= arg_seq_view(va).push(prim_seq_view(ca))
                    );
                }
                done = true;
            },
            Token::Delim(',') => {
                proof {
                    assert(cs.len() > 0 && cs[0] == SpecToken::Delim(','));
                    lemma_parse_arguments_consumed(cs.skip(1), q, rw);
                }
                let ghost cav = current_argument;
                arguments.push(current_argument);
                current_argument = Vec::new();
                proof {
                    let args2 = parsed(parse_arguments(cs.skip(1), q, rw));
                    lemma_arg_seq_view_push(va, cav);
                    assert(rem == seq![Seq::<SpecPrimitive>::empty()] + args2);
                    assert(consumed(parse_arguments(cs, q, rw)) == 1 + consumed(parse_arguments(cs.skip(1), q, rw)));
                    assert(rem[0] =~= Seq::<SpecPrimitive>::empty());
                    assert(rem.drop_first() =~= args2);
                    assert(prim_seq_view(ca) + rem[0] =~= prim_seq_view(ca));
                    assert(prim_seq_view(current_argument@) =~= Seq::<SpecPrimitive>::empty());
                    assert(args2.len() >= 1);
                    assert(
                        arg_seq_view(va) + (seq![prim_seq_view(ca)] + args2)
                        =~= arg_seq_view(va).push(prim_seq_view(ca)) + (seq![Seq::<SpecPrimitive>::empty() + args2[0]] + args2.drop_first())
                    );
                }
            },
            Token::Number(v, r) => {
                let prim = if rewrite {
                    Primitive::Dimension(v, r, px_string())
                } else {
                    Primitive::Number(v, r)
                };
                proof {
                    assert(cs.len() > 0 && cs[0] == SpecToken::Number(v, r@));
                    lemma_parse_arguments_consumed(cs.skip(1), q, rw);
                }
                current_argument.push(prim);
                proof {
                    let psp = if rw {
                        SpecPrimitive::Dimension(v, r@, px_unit())
                    } else {
                        SpecPrimitive::Number(v, r@)
                    };
                    let args2 = parsed(parse_arguments(cs.skip(1), q, rw));
                    lemma_prim_seq_view_push(ca, prim);
                    assert(prim_view(prim) == psp);
                    assert(rem == seq![seq![psp] + args2[0]] + args2.drop_first());
                    assert(consumed(parse_arguments(cs, q, rw)) == 1 + consumed(parse_arguments(cs.skip(1), q, rw)));
                    assert(rem[0] == seq![psp] + args2[0]);
                    assert(rem.drop_first() =~= args2.drop_first());
                    assert(prim_seq_view(current_argument@) =~= prim_seq_view(ca).push(psp));
                    assert(prim_seq_view(ca) + (seq![psp] + args2[0]) =~= prim_seq_view(ca).push(psp) + args2[0]);
                    assert(
                        arg_seq_view(va) + (seq![prim_seq_view(ca) + rem[0]] + rem.drop_first())
                        =~= arg_seq_view(va) + (seq![prim_seq_view(ca).push(psp) + args2[0]] + args2.drop_first())
                    );
                }
            },
            token => {
                proof {
                    assert(cs.len() > 0);
                    assert(!(cs[0] is Comment) && !(cs[0] is EOF) && !(cs[0] is CloseParen));
                    assert(cs[0] != SpecToken::Delim(','));
                    assert(!(cs[0] is Number));
                    assert(parse_primitive(cs, q) is Some);
                }
                reconsume_token(parser, token);
                proof {
                    assert(parser.stream() =~= cs);
                }
                let ghost src1 = parser.src();
                let ghost np = consumed(parse_primitive(cs, q));
                let ghost psp = parsed(parse_primitive(cs, q));
                let prim = consume_primitive(parser);
                current_argument.push(prim);
                proof {
                    let args2 = parsed(parse_arguments(cs.skip(np as int), q, rw));
                    lemma_parse_arguments_consumed(cs.skip(np as int), q, rw);
                    lemma_prim_seq_view_push(ca, prim);
                    lemma_suffix_of_suffix(pre_src, src1, parser.src());
                    lemma_skip_skip(toks, toks.len() - cs.len(), np as int);
                    assert(rem == seq![seq![psp] + args2[0]] + args2.drop_first());
                    assert(consumed(parse_arguments(cs, q, rw)) == np + consumed(parse_arguments(cs.skip(np as int), q, rw)));
                    assert(rem[0] == seq![psp] + args2[0]);
                    assert(rem.drop_first() =~= args2.drop_first());
                    assert(prim_seq_view(current_argument@) =~= prim_seq_view(ca).push(psp));
                    assert(prim_seq_view(ca) + (seq![psp] + args2[0]) =~= prim_seq_view(ca).push(psp) + args2[0]);
                    assert(
                        arg_seq_view(va) + (seq![prim_seq_view(ca) + rem[0]] + rem.drop_first())
                        =~= arg_seq_view(va) + (seq![prim_seq_view(ca).push(psp) + args2[0]] + args2.drop_first())
                    );
                }
            },
        }
    }
    proof {
        lemma_arg_seq_view_push(arguments@, current_argument);
    }
    arguments.push(current_argument);
    let f = Primitive::Function(name, arguments);
    proof {
        assert(prim_view(f) == SpecPrimitive::Function(nm, args_total));
    }
    f
}

/// Consumes the whole input and returns the list of primitives: comments
/// are discarded, an end-of-input token stops the loop, and every other
/// token is pushed back and consumed as one primitive. The only
/// externally exposed parsing entry point.
#[verifier::loop_isolation(false)]
#[verifier::rlimit(100)]
pub fn consume_primitive_list(parser: &mut Parser) -> (r: Vec<Primitive>)
    requires
        parse_primitive_list(old(parser).stream(), old(parser).quirks()) is Some,
    ensures
        advanced(*old(parser), *final(parser), consumed(parse_primitive_list(old(parser).stream(), old(parser).quirks()))),
        prim_seq_view(r@) == parsed(parse_primitive_list(old(parser).stream(), old(parser).quirks())),
{
    let ghost toks = old(parser).stream();
    let ghost q = old(parser).quirks();
    let ghost pre_src = old(parser).src();
    let ghost pre_log = old(parser).error_log();
    let ghost total = parsed(parse_primitive_list(toks, q));
    let ghost n_total = consumed(parse_primitive_list(toks, q));
    let mut value: Vec<Primitive> = Vec::new();
    proof {
        lemma_parse_primitive_list_consumed(toks, q);
        assert(toks.skip(0) =~= toks);
        assert(pre_src.skip(0) =~= pre_src);
        assert(Seq::<SpecPrimitive>::empty() + total =~= total);
    }
    let mut done = false;
    while !done
        invariant
            parser.quirks() == q,
            parser.stream().len() <= toks.len(),
            parser.stream() == toks.skip(toks.len() - parser.stream().len()),
            parser.src().len() <= pre_src.len(),
            parser.src() == pre_src.skip(pre_src.len() - parser.src().len()),
            parser.error_log() + errs_of(parser.src()) == pre_log + errs_of(pre_src),
            !done ==> parse_primitive_list(parser.stream(), q) is Some,
            !done ==> total == prim_seq_view(value@) + parsed(parse_primitive_list(parser.stream(), q)),
            !done ==> n_total == (toks.len() - parser.stream().len()) + consumed(parse_primitive_list(parser.stream(), q)),
            done ==> parser.lookahead() is None,
            done ==> prim_seq_view(value@) == total,
            done ==> n_total <= toks.len(),
            done ==> parser.stream() == toks.skip(n_total as int),
        decreases parser.stream().len(), (if done { 0int } else { 1int }),
    {
        let ghost cs = parser.stream();
        let ghost csrc = parser.src();
        let token = consume_next_token(parser);
        proof {
            lemma_suffix_of_suffix(pre_src, csrc, parser.src());
            if cs.len() > 0 {
                assert(cs.drop_first() =~= cs.skip(1));
                lemma_skip_skip(toks, toks.len() - cs.len(), 1);
            }
        }
        match token {
            Token::Comment => {
                proof {
                    assert(cs.len() > 0 && cs[0] is Comment);
                    assert(parsed(parse_primitive_list(cs, q)) == parsed(parse_primitive_list(cs.skip(1), q)));
                    assert(consumed(parse_primitive_list(cs, q)) == 1 + consumed(parse_primitive_list(cs.skip(1), q)));
                }
            },
            Token::EOF => {
                proof {
                    if cs.len() > 0 {
                        assert(cs[0] is EOF);
                    }
                    assert(parsed(parse_primitive_list(cs, q)) =~= Seq::<SpecPrimitive>::empty());
                    assert(prim_seq_view(value@) + Seq::<SpecPrimitive>::empty() =~= prim_seq_view(value@));
                }
                done = true;
            },
            token => {
                proof {
                    assert(cs.len() > 0);
                    assert(!(cs[0] is Comment) && !(cs[0] is EOF));
                    assert(parse_primitive(cs, q) is Some);
                }
                reconsume_token(parser, token);
                proof {
                    assert(parser.stream() =~= cs);
                }
                let ghost src1 = parser.src();
                let ghost vv = value@;
                let ghost np = consumed(parse_primitive(cs, q));
                let ghost psp = parsed(parse_primitive(cs, q));
                let ghost rest = parsed(parse_primitive_list(cs.skip(np as int), q));
                let prim = consume_primitive(parser);
                value.push(prim);
                proof {
                    lemma_prim_seq_view_push(vv, prim);
                    lemma_suffix_of_suffix(pre_src, src1, parser.src());
                    lemma_skip_skip(toks, toks.len() - cs.len(), np as int);
                    assert(parsed(parse_primitive_list(cs, q)) == seq![psp] + rest);
                    assert(consumed(parse_primitive_list(cs, q)) == np + consumed(parse_primitive_list(cs.skip(np as int), q)));
                    assert(prim_seq_view(vv) + (seq![psp] + rest) =~= prim_seq_view(vv).push(psp) + rest);
                }
            },
        }
    }
    value
}

} // verus!
