use calc::regex::{lex, Parser, Regex, RegexLexError, Token, TokenType};

#[test]
fn plain_pattern_tokenizes_character_by_character() {
    let tokens = lex("a*.(bc|d)".to_string()).unwrap();
    let kinds: Vec<TokenType> = tokens.iter().map(|t| t.tt).collect();
    assert_eq!(
        kinds,
        vec![
            TokenType::Character('a'),
            TokenType::Star,
            TokenType::Dot,
            TokenType::LeftParen,
            TokenType::Character('b'),
            TokenType::Character('c'),
            TokenType::Pipe,
            TokenType::Character('d'),
            TokenType::RightParen,
            TokenType::Eof,
        ]
    );
}

#[test]
fn escape_takes_the_next_character_literally() {
    let tokens = lex(r"\*\(".to_string()).unwrap();
    assert_eq!(
        tokens,
        vec![
            Token { position: 2, tt: TokenType::Character('*') },
            Token { position: 4, tt: TokenType::Character('(') },
            Token { position: 4, tt: TokenType::Eof },
        ]
    );
}

#[test]
fn trailing_escape_is_an_error() {
    assert_eq!(
        lex(r"a\".to_string()),
        Err(RegexLexError::DanglingEscape { offset: 1 })
    );
    let err = lex(r"\".to_string()).unwrap_err();
    assert_eq!(err.description(), "unexpected end of input after escape");
}

#[test]
fn positions_point_past_each_token() {
    let tokens = lex("ab".to_string()).unwrap();
    assert_eq!(tokens[0].position, 1);
    assert_eq!(tokens[1].position, 2);
    assert_eq!(tokens[2], Token { position: 2, tt: TokenType::Eof });
}

#[test]
fn parser_skeleton_walks_the_tokens() {
    let tokens = lex("a|b".to_string()).unwrap();
    let mut parser = Parser::new(tokens);
    assert_eq!(parser.peek().map(|t| t.tt), Some(TokenType::Character('a')));
    let first = parser.advance();
    assert_eq!(first.tt, TokenType::Character('a'));
    parser.consume();
    assert_eq!(parser.peek().map(|t| t.tt), Some(TokenType::Character('b')));
}

#[test]
fn regex_trees_can_be_built() {
    let tree = Regex::Or(vec![
        Regex::Sequence(vec![Regex::Character('a'), Regex::Starred(Box::new(Regex::Dot))]),
        Regex::Character('b'),
    ]);
    match tree {
        Regex::Or(arms) => assert_eq!(arms.len(), 2),
        _ => panic!("expected an alternation"),
    }
}
