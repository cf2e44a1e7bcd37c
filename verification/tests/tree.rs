use css_tree::tokens::{NumericValue, Token, TokenResult};
use css_tree::parser::{consume_primitive_list, make_parser, Parser};
use css_tree::primitives::Primitive;

fn ok(token: Token) -> TokenResult {
    TokenResult { token, error: None }
}

fn parser_of(tokens: Vec<Token>, quirks_mode: bool) -> Parser {
    make_parser(tokens.into_iter().map(ok).collect(), quirks_mode)
}

fn int_tok(value: i64, repr: &str) -> Token {
    Token::Number(NumericValue::Integer(value), repr.to_string())
}

#[test]
fn test_primitives() {
    // Empty input: empty primitive sequence, empty error list.
    let mut parser = parser_of(vec![], false);
    let primitives = consume_primitive_list(&mut parser);
    assert_eq!(primitives, vec![]);
    assert_eq!(parser.errors().len(), 0);

    // The token stream of `42 foo([aa ()b], -){\n  }`.
    let mut parser = parser_of(
        vec![
            int_tok(42, "42"),
            Token::WhiteSpace,
            Token::Function("foo".to_string()),
            Token::OpenBracket,
            Token::Ident("aa".to_string()),
            Token::WhiteSpace,
            Token::OpenParen,
            Token::CloseParen,
            Token::Ident("b".to_string()),
            Token::CloseBracket,
            Token::Delim(','),
            Token::WhiteSpace,
            Token::Delim('-'),
            Token::CloseParen,
            Token::OpenBrace,
            Token::WhiteSpace,
            Token::CloseBrace,
            Token::EOF,
        ],
        false,
    );
    let primitives = consume_primitive_list(&mut parser);
    let expected = vec![
        Primitive::Number(NumericValue::Integer(42), "42".to_string()),
        Primitive::WhiteSpace,
        Primitive::Function(
            "foo".to_string(),
            vec![
                vec![Primitive::BracketBlock(vec![
                    Primitive::Ident("aa".to_string()),
                    Primitive::WhiteSpace,
                    Primitive::ParenBlock(vec![]),
                    Primitive::Ident("b".to_string()),
                ])],
                vec![Primitive::WhiteSpace, Primitive::Delim('-')],
            ],
        ),
        Primitive::BraceBlock(vec![Primitive::WhiteSpace]),
    ];
    assert_eq!(primitives, expected);
    assert_eq!(parser.errors().len(), 0);
}

#[test]
fn test_empty_input() {
    let mut parser = parser_of(vec![], true);
    let primitives = consume_primitive_list(&mut parser);
    assert!(primitives.is_empty());
    assert!(parser.errors().is_empty());
}

#[test]
fn test_function_no_arguments() {
    // `foo()`: exactly one empty argument sequence.
    let mut parser = parser_of(
        vec![Token::Function("foo".to_string()), Token::CloseParen],
        false,
    );
    let primitives = consume_primitive_list(&mut parser);
    assert_eq!(
        primitives,
        vec![Primitive::Function("foo".to_string(), vec![vec![]])]
    );
}

#[test]
fn test_function_trailing_comma() {
    // `foo(a,)`: a trailing empty argument.
    let mut parser = parser_of(
        vec![
            Token::Function("foo".to_string()),
            Token::Ident("a".to_string()),
            Token::Delim(','),
            Token::CloseParen,
        ],
        false,
    );
    let primitives = consume_primitive_list(&mut parser);
    assert_eq!(
        primitives,
        vec![Primitive::Function(
            "foo".to_string(),
            vec![vec![Primitive::Ident("a".to_string())], vec![]]
        )]
    );
}

fn rect_tokens(name: &str) -> Vec<Token> {
    vec![
        Token::Function(name.to_string()),
        int_tok(10, "10"),
        Token::Delim(','),
        int_tok(20, "20"),
        Token::Delim(','),
        int_tok(30, "30"),
        Token::Delim(','),
        int_tok(40, "40"),
        Token::CloseParen,
    ]
}

fn px_dim(value: i64, repr: &str) -> Primitive {
    Primitive::Dimension(
        NumericValue::Integer(value),
        repr.to_string(),
        "px".to_string(),
    )
}

#[test]
fn test_rect_quirks_mode_on() {
    // `rect(10,20,30,40)` with quirks mode on: four px dimensions,
    // representations preserved.
    let mut parser = parser_of(rect_tokens("rect"), true);
    let primitives = consume_primitive_list(&mut parser);
    assert_eq!(
        primitives,
        vec![Primitive::Function(
            "rect".to_string(),
            vec![
                vec![px_dim(10, "10")],
                vec![px_dim(20, "20")],
                vec![px_dim(30, "30")],
                vec![px_dim(40, "40")],
            ]
        )]
    );
    assert!(parser.errors().is_empty());
}

#[test]
fn test_rect_quirks_mode_off() {
    // The same input with quirks mode off: four plain numbers.
    let mut parser = parser_of(rect_tokens("rect"), false);
    let primitives = consume_primitive_list(&mut parser);
    assert_eq!(
        primitives,
        vec![Primitive::Function(
            "rect".to_string(),
            vec![
                vec![Primitive::Number(NumericValue::Integer(10), "10".to_string())],
                vec![Primitive::Number(NumericValue::Integer(20), "20".to_string())],
                vec![Primitive::Number(NumericValue::Integer(30), "30".to_string())],
                vec![Primitive::Number(NumericValue::Integer(40), "40".to_string())],
            ]
        )]
    );
}

#[test]
fn test_rect_case_insensitive() {
    // `RECT(...)` behaves as `rect(...)` under quirks mode: identical
    // argument lists, only the recorded name differs.
    let mut upper = parser_of(rect_tokens("RECT"), true);
    let upper_primitives = consume_primitive_list(&mut upper);
    let mut lower = parser_of(rect_tokens("rect"), true);
    let lower_primitives = consume_primitive_list(&mut lower);
    match (&upper_primitives[0], &lower_primitives[0]) {
        (Primitive::Function(upper_name, upper_args), Primitive::Function(lower_name, lower_args)) => {
            assert_eq!(upper_name, "RECT");
            assert_eq!(lower_name, "rect");
            assert_eq!(upper_args, lower_args);
        }
        _ => panic!("expected function primitives"),
    }
}

#[test]
fn test_unclosed_block() {
    // `{ a` with no closing brace: the block still comes back with the
    // children accumulated before the end of the input, and no fault.
    let mut parser = parser_of(
        vec![
            Token::OpenBrace,
            Token::WhiteSpace,
            Token::Ident("a".to_string()),
        ],
        false,
    );
    let primitives = consume_primitive_list(&mut parser);
    assert_eq!(
        primitives,
        vec![Primitive::BraceBlock(vec![
            Primitive::WhiteSpace,
            Primitive::Ident("a".to_string()),
        ])]
    );
    assert!(parser.errors().is_empty());
}

#[test]
fn test_nested_blocks() {
    // `[({})]`: nesting depth carried through exactly.
    let mut parser = parser_of(
        vec![
            Token::OpenBracket,
            Token::OpenParen,
            Token::OpenBrace,
            Token::CloseBrace,
            Token::CloseParen,
            Token::CloseBracket,
        ],
        false,
    );
    let primitives = consume_primitive_list(&mut parser);
    assert_eq!(
        primitives,
        vec![Primitive::BracketBlock(vec![Primitive::ParenBlock(vec![
            Primitive::BraceBlock(vec![]),
        ])])]
    );
}

#[test]
fn test_comma_inside_block_is_not_an_argument_split() {
    // `f([a,b])`: the comma sits inside the bracket block, so the function
    // has a single argument.
    let mut parser = parser_of(
        vec![
            Token::Function("f".to_string()),
            Token::OpenBracket,
            Token::Ident("a".to_string()),
            Token::Delim(','),
            Token::Ident("b".to_string()),
            Token::CloseBracket,
            Token::CloseParen,
        ],
        false,
    );
    let primitives = consume_primitive_list(&mut parser);
    assert_eq!(
        primitives,
        vec![Primitive::Function(
            "f".to_string(),
            vec![vec![Primitive::BracketBlock(vec![
                Primitive::Ident("a".to_string()),
                Primitive::Delim(','),
                Primitive::Ident("b".to_string()),
            ])]]
        )]
    );
}

#[test]
fn test_comments_discarded() {
    let mut parser = parser_of(
        vec![
            Token::Comment,
            Token::Ident("x".to_string()),
            Token::Comment,
            Token::Comment,
        ],
        false,
    );
    let primitives = consume_primitive_list(&mut parser);
    assert_eq!(primitives, vec![Primitive::Ident("x".to_string())]);
}

#[test]
fn test_lexical_errors_recorded_in_order() {
    let results = vec![
        TokenResult {
            token: Token::Ident("a".to_string()),
            error: Some("bad escape".to_string()),
        },
        TokenResult {
            token: Token::WhiteSpace,
            error: None,
        },
        TokenResult {
            token: Token::Ident("b".to_string()),
            error: Some("bad code point".to_string()),
        },
    ];
    let mut parser = make_parser(results, false);
    let primitives = consume_primitive_list(&mut parser);
    assert_eq!(
        primitives,
        vec![
            Primitive::Ident("a".to_string()),
            Primitive::WhiteSpace,
            Primitive::Ident("b".to_string()),
        ]
    );
    assert_eq!(
        parser.errors(),
        &vec!["bad escape".to_string(), "bad code point".to_string()]
    );
}

#[test]
fn test_tokens_after_eof_stay_unread() {
    // An end-of-input token stops the list; what follows it, and any
    // error attached there, is never pulled.
    let results = vec![
        TokenResult {
            token: Token::Ident("a".to_string()),
            error: None,
        },
        TokenResult {
            token: Token::EOF,
            error: None,
        },
        TokenResult {
            token: Token::Ident("b".to_string()),
            error: Some("never reached".to_string()),
        },
    ];
    let mut parser = make_parser(results, false);
    let primitives = consume_primitive_list(&mut parser);
    assert_eq!(primitives, vec![Primitive::Ident("a".to_string())]);
    assert!(parser.errors().is_empty());
}

#[test]
fn test_quirk_scoped_to_rect_arguments() {
    // `f(1,rect(2),[3])` with quirks mode on: only the bare `2` directly
    // inside `rect` is rewritten; `1` belongs to `f`, and `3` sits inside
    // a block, so both stay plain numbers.
    let mut parser = parser_of(
        vec![
            Token::Function("f".to_string()),
            int_tok(1, "1"),
            Token::Delim(','),
            Token::Function("rect".to_string()),
            int_tok(2, "2"),
            Token::CloseParen,
            Token::Delim(','),
            Token::OpenBracket,
            int_tok(3, "3"),
            Token::CloseBracket,
            Token::CloseParen,
        ],
        true,
    );
    let primitives = consume_primitive_list(&mut parser);
    assert_eq!(
        primitives,
        vec![Primitive::Function(
            "f".to_string(),
            vec![
                vec![Primitive::Number(NumericValue::Integer(1), "1".to_string())],
                vec![Primitive::Function(
                    "rect".to_string(),
                    vec![vec![px_dim(2, "2")]]
                )],
                vec![Primitive::BracketBlock(vec![Primitive::Number(
                    NumericValue::Integer(3),
                    "3".to_string()
                )])],
            ]
        )]
    );
}
