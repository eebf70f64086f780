use doctags::lexer::LexItem;
use doctags::lexer::lex;
use doctags::parser::GrammarItem;
use doctags::parser::ParseError;
use doctags::parser::parse;
use doctags::parser::parse_items;

#[test]
pub fn simple_notation() {
    let result = parse("@name Memory Management".into()).unwrap();
    assert_eq!(
        result,
        vec![
            GrammarItem::Notation {
                meta: vec![],
                params: vec![],
                tag: "name".into(),
            },
            GrammarItem::Text("Memory Management".into()),
        ]
    );
}

#[test]
pub fn paren_in_notation() {
    let result = parse("@note hoge_t = {a, b, c}".into()).unwrap();
    assert_eq!(
        result,
        vec![
            GrammarItem::Notation {
                meta: vec![],
                params: vec![],
                tag: "note".into(),
            },
            GrammarItem::Text("hoge_t = {a, b, c}".into()),
        ]
    );
}

#[test]
pub fn param() {
    let result =
        parse("@param[in] random This is, without a doubt, a random argument.".into()).unwrap();
    assert_eq!(
        result,
        vec![
            GrammarItem::Notation {
                meta: vec!["in".into()],
                params: vec!["random".into()],
                tag: "param".into(),
            },
            GrammarItem::Text(" This is, without a doubt, a random argument.".into()),
        ]
    );
}

#[test]
pub fn groups() {
    let result = parse("@{\n* @name Memory Management\n@}".into()).unwrap();
    assert_eq!(
        result,
        vec![
            GrammarItem::GroupStart,
            GrammarItem::Text("* ".into()),
            GrammarItem::Notation {
                meta: vec![],
                params: vec![],
                tag: "name".into(),
            },
            GrammarItem::Text("Memory Management\n".into()),
            GrammarItem::GroupEnd,
        ]
    );
}

#[test]
pub fn trims_param_texts() {
    let result = parse(
        "@param[in]           var                                         Example description"
            .into(),
    )
    .unwrap();
    assert_eq!(
        result,
        vec![
            GrammarItem::Notation {
                meta: vec!["in".into()],
                params: vec!["var".into()],
                tag: "param".into(),
            },
            GrammarItem::Text(" Example description".into()),
        ]
    )
}

#[test]
pub fn param_in_out_directions() {
    let result = parse("@param[in,out] y z".into()).unwrap();
    assert_eq!(
        result,
        vec![
            GrammarItem::Notation {
                meta: vec!["in".into(), "out".into()],
                params: vec!["y".into()],
                tag: "param".into(),
            },
            GrammarItem::Text(" z".into()),
        ]
    );
}

#[test]
pub fn param_out_in_directions() {
    let result = parse("@param[out,in] y".into()).unwrap();
    assert_eq!(
        result,
        vec![
            GrammarItem::Notation {
                meta: vec!["in".into(), "out".into()],
                params: vec!["y".into()],
                tag: "param".into(),
            },
            GrammarItem::Text("".into()),
        ]
    );
}

#[test]
pub fn param_out_direction() {
    let result = parse("@param[out] x".into()).unwrap();
    assert_eq!(
        result,
        vec![
            GrammarItem::Notation {
                meta: vec!["out".into()],
                params: vec!["x".into()],
                tag: "param".into(),
            },
            GrammarItem::Text("".into()),
        ]
    );
}

#[test]
pub fn param_without_suffix() {
    let result = parse("@param x".into()).unwrap();
    assert_eq!(
        result,
        vec![
            GrammarItem::Notation {
                meta: vec![],
                params: vec!["x".into()],
                tag: "param".into(),
            },
            GrammarItem::Text("".into()),
        ]
    );
}

#[test]
pub fn argument_tag_captures_one_word() {
    let result = parse("@see foo bar".into()).unwrap();
    assert_eq!(
        result,
        vec![
            GrammarItem::Notation {
                meta: vec![],
                params: vec!["foo".into()],
                tag: "see".into(),
            },
            GrammarItem::Text(" bar".into()),
        ]
    );
}

#[test]
pub fn malformed_direction_suffix_rejected() {
    match parse("@param[foo] x".into()) {
        Err(ParseError::UnexpectedInput { found, expected }) => {
            assert_eq!(found, "foo]");
            assert_eq!(expected, vec!["in]".to_string(), "out]".to_string()]);
        }
        _ => panic!("expected UnexpectedInput"),
    }
}

#[test]
pub fn stray_paren_token_rejected() {
    let toks = vec![
        LexItem::At,
        LexItem::Paren('x'),
        LexItem::Space,
        LexItem::Space,
        LexItem::Space,
    ];
    match parse_items(toks) {
        Err(ParseError::UnexpectedInput { found, expected }) => {
            assert_eq!(found, "x");
            assert_eq!(expected, vec!["{".to_string(), "}".to_string()]);
        }
        _ => panic!("expected UnexpectedInput"),
    }
}

#[test]
pub fn sigil_free_input_is_one_text() {
    let result = parse("hello  world\nfoo".into()).unwrap();
    assert_eq!(result, vec![GrammarItem::Text("hello world\nfoo".into())]);
}

#[test]
pub fn tabs_collapse_like_spaces() {
    let result = parse("a\t\t b".into()).unwrap();
    assert_eq!(result, vec![GrammarItem::Text("a b".into())]);
}

#[test]
pub fn space_runs_lex_like_one_space() {
    assert_eq!(parse("a   b".into()).unwrap(), parse("a b".into()).unwrap());
    assert_eq!(
        parse("a   b".into()).unwrap(),
        vec![GrammarItem::Text("a b".into())]
    );
}

#[test]
pub fn name_tag_with_empty_remainder() {
    let result = parse("@name ".into()).unwrap();
    assert_eq!(
        result,
        vec![
            GrammarItem::Notation {
                meta: vec![],
                params: vec![],
                tag: "name".into(),
            },
            GrammarItem::Text("".into()),
        ]
    );
}

#[test]
pub fn spaced_group() {
    let result = parse("@{ a @}".into()).unwrap();
    assert_eq!(
        result,
        vec![
            GrammarItem::GroupStart,
            GrammarItem::Text("a ".into()),
            GrammarItem::GroupEnd,
        ]
    );
}

#[test]
pub fn leading_newline_is_dropped() {
    let result = parse("\nabc".into()).unwrap();
    assert_eq!(result, vec![GrammarItem::Text("abc".into())]);
}

#[test]
pub fn leading_brace_is_dropped() {
    let result = parse("{a}".into()).unwrap();
    assert_eq!(result, vec![GrammarItem::Text("a}".into())]);
}

#[test]
pub fn lexer_token_stream() {
    let toks = lex("@{a b\t c}\n");
    assert_eq!(
        toks,
        vec![
            LexItem::At,
            LexItem::Paren('{'),
            LexItem::Word("a".into()),
            LexItem::Space,
            LexItem::Word("b".into()),
            LexItem::Space,
            LexItem::Word("c".into()),
            LexItem::Paren('}'),
            LexItem::NewLine,
        ]
    );
}

#[test]
pub fn empty_input_yields_no_items() {
    let result = parse("".into()).unwrap();
    assert_eq!(result, Vec::<GrammarItem>::new());
}
