use mock_routes::app_requirements::{ApplicationRequirements, HttpMethods};
use mock_routes::tokenizer::ast::{parse_requirements, parse_single_requirement, ParseError};
use mock_routes::tokenizer::tokens::{parse, Token};

#[test]
fn parse_from_tokens_to_requirements() {
    let tokens = vec![
        Token::Identifier("GET".to_string()),
        Token::Identifier("/api/user/:id".to_string()),
        Token::Identifier("200".to_string()),
        Token::Identifier("Delay".to_string()),
        Token::Equal,
        Token::Identifier("1".to_string()),
    ];
    let result = parse_requirements(&tokens).unwrap();
    assert_eq!(
        result,
        vec![ApplicationRequirements {
            path: "/api/user/:id".to_string(),
            http_method: HttpMethods::GET,
            http_response_status: 200,
            http_response_body: None,
            http_response_path: None,
            delay: Some(1)
        }]
    );
}

#[test]
fn parse_with_invalid_http_method() {
    let tokens = vec![
        Token::Identifier("INVALID".to_string()),
        Token::Identifier("/api/user/:id".to_string()),
        Token::Identifier("200".to_string()),
    ];
    let result = parse_requirements(&tokens);
    assert!(matches!(result, Err(ParseError::InvalidHttpMethod(_))));
}

#[test]
fn parse_with_missing_path() {
    let tokens = vec![Token::Identifier("GET".to_string())];
    let result = parse_requirements(&tokens);
    assert!(matches!(result, Err(ParseError::MissingPath)));
}

#[test]
fn parse_with_invalid_status_code() {
    let tokens = vec![
        Token::Identifier("GET".to_string()),
        Token::Identifier("/api/user/:id".to_string()),
        Token::Identifier("invalid".to_string()),
    ];
    let result = parse_requirements(&tokens);
    assert!(matches!(result, Err(ParseError::InvalidStatusCode(_))));
}

#[test]
fn parse_with_http_response_body() {
    let tokens = vec![
        Token::Identifier("POST".to_string()),
        Token::Identifier("/api/user".to_string()),
        Token::Identifier("201".to_string()),
        Token::LeftBrace,
        Token::Quote,
        Token::Identifier("id".to_string()),
        Token::Quote,
        Token::Colon,
        Token::Identifier("123".to_string()),
        Token::Comma,
        Token::Quote,
        Token::Identifier("name".to_string()),
        Token::Quote,
        Token::Colon,
        Token::Quote,
        Token::Identifier("John Doe".to_string()),
        Token::Quote,
        Token::Comma,
        Token::Quote,
        Token::Identifier("active".to_string()),
        Token::Quote,
        Token::Colon,
        Token::Identifier("true".to_string()),
        Token::RightBrace,
    ];
    let result = parse_requirements(&tokens).unwrap();
    assert_eq!(
        result,
        vec![ApplicationRequirements {
            path: "/api/user".to_string(),
            http_method: HttpMethods::POST,
            http_response_status: 201,
            http_response_body: Some(r#"{"id":123,"name":"John Doe","active":true}"#.to_string()),
            http_response_path: None,
            delay: None
        }]
    );
}

#[test]
fn bare_header_line_yields_one_plain_descriptor() {
    let result = parse_requirements(&parse("GET /x 200".to_string()).unwrap()).unwrap();
    assert_eq!(
        result,
        vec![ApplicationRequirements {
            path: "/x".to_string(),
            http_method: HttpMethods::GET,
            http_response_status: 200,
            http_response_body: None,
            http_response_path: None,
            delay: None
        }]
    );
}

#[test]
fn header_line_with_delay_marker() {
    let result =
        parse_requirements(&parse("GET /api/user/:id 200\nDelay=1\n".to_string()).unwrap())
            .unwrap();
    assert_eq!(
        result,
        vec![ApplicationRequirements {
            path: "/api/user/:id".to_string(),
            http_method: HttpMethods::GET,
            http_response_status: 200,
            http_response_body: None,
            http_response_path: None,
            delay: Some(1)
        }]
    );
}

#[test]
fn header_line_with_body_reconstructs_flat_json_text() {
    let text = "PUT /foo 416\n\n{\n \"foo\": true,\n \"bar\": \"Hello World\"\n}\n".to_string();
    let result = parse_requirements(&parse(text).unwrap()).unwrap();
    assert_eq!(
        result,
        vec![ApplicationRequirements {
            path: "/foo".to_string(),
            http_method: HttpMethods::PUT,
            http_response_status: 416,
            http_response_body: Some("{\"foo\":true,\"bar\":\"Hello World\"}".to_string()),
            http_response_path: None,
            delay: None
        }]
    );
}

#[test]
fn unsupported_method_reports_its_name() {
    let result = parse_requirements(&parse("INVALID /x 200".to_string()).unwrap());
    assert_eq!(
        result,
        Err(ParseError::InvalidHttpMethod("INVALID".to_string()))
    );
}

#[test]
fn lone_method_token_misses_the_path() {
    let result = parse_requirements(&parse("GET".to_string()).unwrap());
    assert_eq!(result, Err(ParseError::MissingPath));
}

#[test]
fn unreadable_status_reports_its_text() {
    let result = parse_requirements(&parse("GET /x notanumber".to_string()).unwrap());
    assert_eq!(
        result,
        Err(ParseError::InvalidStatusCode("notanumber".to_string()))
    );
}

#[test]
fn status_too_large_for_sixteen_bits_is_invalid() {
    let result = parse_requirements(&parse("GET /x 70000".to_string()).unwrap());
    assert_eq!(
        result,
        Err(ParseError::InvalidStatusCode("70000".to_string()))
    );
}

#[test]
fn unreadable_delay_reports_its_text() {
    let result = parse_requirements(&parse("GET /x 200\nDelay=abc".to_string()).unwrap());
    assert_eq!(result, Err(ParseError::InvalidDelay("abc".to_string())));
}

#[test]
fn delay_marker_without_its_value_pair_is_ignored() {
    let result = parse_requirements(&parse("GET /x 200 Delay".to_string()).unwrap()).unwrap();
    assert_eq!(result[0].delay, None);
    let result = parse_requirements(&parse("GET /x 200 Delay 5".to_string()).unwrap()).unwrap();
    assert_eq!(result[0].delay, None);
}

#[test]
fn missing_tokens_report_the_first_absent_field() {
    assert_eq!(
        parse_requirements(&[]).unwrap(),
        Vec::<ApplicationRequirements>::new()
    );
    let result = parse_requirements(&parse("GET /x".to_string()).unwrap());
    assert_eq!(result, Err(ParseError::MissingStatusCode));
    let result = parse_requirements(&[Token::LeftBrace]);
    assert_eq!(result, Err(ParseError::MissingHttpMethod));
}

#[test]
fn routes_with_bodies_parse_as_separate_groups() {
    let text = "GET /a 200\n{\"x\": 1}\nPOST /b 201\n{\"y\": 2}".to_string();
    let result = parse_requirements(&parse(text).unwrap()).unwrap();
    assert_eq!(result.len(), 2);
    assert_eq!(result[0].path, "/a");
    assert_eq!(result[0].http_response_body, Some("{\"x\":1}".to_string()));
    assert_eq!(result[1].path, "/b");
    assert_eq!(result[1].http_method, HttpMethods::POST);
    assert_eq!(result[1].http_response_body, Some("{\"y\":2}".to_string()));
}

#[test]
fn unterminated_body_keeps_what_was_captured() {
    let result = parse_requirements(&parse("GET /x 200 {\"a\": 1".to_string()).unwrap()).unwrap();
    assert_eq!(result[0].http_response_body, Some("{\"a\":1".to_string()));
}

#[test]
fn single_group_decodes_through_its_token_range() {
    let tokens = vec![
        Token::Identifier("DELETE".to_string()),
        Token::Identifier("/api/user/:id".to_string()),
        Token::Identifier("204".to_string()),
    ];
    let result = parse_single_requirement(&tokens, 0, tokens.len()).unwrap();
    assert_eq!(result.http_method, HttpMethods::DELETE);
    assert_eq!(result.http_response_status, 204);
}
