use mock_routes::tokenizer::tokens::{parse, LexError, Token};

#[test]
fn parse_example() {
    let example = "
        GET /api/user/:id 200
        Delay=1

        {
          \"foo\": true
        }
        "
    .to_string();

    assert_eq!(
        parse(example).unwrap(),
        vec![
            Token::Identifier("GET".to_string()),
            Token::Identifier("/api/user/:id".to_string()),
            Token::Identifier("200".to_string()),
            Token::Identifier("Delay".to_string()),
            Token::Equal,
            Token::Identifier("1".to_string()),
            Token::LeftBrace,
            Token::Quote,
            Token::Identifier("foo".to_string()),
            Token::Quote,
            Token::Colon,
            Token::Identifier("true".to_string()),
            Token::RightBrace
        ]
    );
}

#[test]
fn parse_example_with_two_fields_without_delay() {
    let example = "
        PUT /foo 416

        {
          \"foo\": true,
          \"bar\": \"Hello World\"
        }
        "
    .to_string();

    assert_eq!(
        parse(example).unwrap(),
        vec![
            Token::Identifier("PUT".to_string()),
            Token::Identifier("/foo".to_string()),
            Token::Identifier("416".to_string()),
            Token::LeftBrace,
            Token::Quote,
            Token::Identifier("foo".to_string()),
            Token::Quote,
            Token::Colon,
            Token::Identifier("true".to_string()),
            Token::Comma,
            Token::Quote,
            Token::Identifier("bar".to_string()),
            Token::Quote,
            Token::Colon,
            Token::Quote,
            Token::Identifier("Hello World".to_string()),
            Token::Quote,
            Token::RightBrace
        ]
    );
}

#[test]
fn parse_json_like_structure() {
    let example = r#"
        {
          "foo": "Hello world!"
        }
        "#
    .to_string();

    assert_eq!(
        parse(example).unwrap(),
        vec![
            Token::LeftBrace,
            Token::Quote,
            Token::Identifier("foo".to_string()),
            Token::Quote,
            Token::Colon,
            Token::Quote,
            Token::Identifier("Hello world!".to_string()),
            Token::Quote,
            Token::RightBrace
        ]
    );
}

#[test]
fn empty_quoted_text_is_an_empty_identifier() {
    assert_eq!(
        parse("\"\"".to_string()).unwrap(),
        vec![
            Token::Quote,
            Token::Identifier("".to_string()),
            Token::Quote
        ]
    );
}

#[test]
fn unterminated_quote_still_closes_the_token_pair() {
    assert_eq!(
        parse("\"ab".to_string()).unwrap(),
        vec![
            Token::Quote,
            Token::Identifier("ab".to_string()),
            Token::Quote
        ]
    );
}

#[test]
fn lone_colon_is_a_separator_but_embedded_colon_is_data() {
    assert_eq!(
        parse(": /a:b".to_string()).unwrap(),
        vec![Token::Colon, Token::Identifier("/a:b".to_string())]
    );
}

#[test]
fn unrecognized_character_stops_the_lexer() {
    assert_eq!(
        parse("GET @".to_string()),
        Err(LexError::InvalidCharacter('@'))
    );
}

#[test]
fn rendering_then_relexing_merges_a_colon_into_its_neighbour() {
    // The display forms of `Identifier("/a")` and `Colon` join into "/a:",
    // which lexes back as one identifier: token sequences do not round-trip
    // through their textual rendering.
    let tokens = vec![Token::Identifier("/a".to_string()), Token::Colon];
    let mut text = String::new();
    for token in &tokens {
        text.push_str(token.render().as_str());
    }
    assert_eq!(text, "/a:");
    let relexed = parse(text).unwrap();
    assert_eq!(relexed, vec![Token::Identifier("/a:".to_string())]);
    assert_ne!(relexed, tokens);
}

#[test]
fn tokens_render_as_their_source_characters() {
    assert_eq!(Token::Identifier("abc".to_string()).render(), "abc");
    assert_eq!(Token::Equal.render(), "=");
    assert_eq!(Token::LeftBrace.render(), "{");
    assert_eq!(Token::RightBrace.render(), "}");
    assert_eq!(Token::Quote.render(), "\"");
    assert_eq!(Token::Colon.render(), ":");
    assert_eq!(Token::Comma.render(), ",");
}
