use rjust::{scan, Diagnostic, Literal, Scanner, Token, TokenType};

fn kinds(tokens: &[Token]) -> Vec<TokenType> {
    tokens.iter().map(|t| t._type).collect()
}

fn lexemes(tokens: &[Token]) -> Vec<String> {
    tokens.iter().map(|t| t.lexeme.clone()).collect()
}

fn messages(errors: &[Diagnostic]) -> Vec<String> {
    errors.iter().map(|e| e.message.clone()).collect()
}

#[test]
fn every_scan_ends_with_end_of_input() {
    for input in ["", "x", "@", "\"abc", "1.", "// only", "a\nb", "!=<>=="] {
        let (tokens, _) = scan(input);
        let last = tokens.last().expect("at least the end marker");
        assert_eq!(last._type, TokenType::EOF);
        assert_eq!(last.lexeme, "");
        assert_eq!(tokens.iter().filter(|t| t._type == TokenType::EOF).count(), 1);
    }
}

#[test]
fn empty_input_gives_only_end_marker() {
    let (tokens, errors) = scan("");
    assert_eq!(kinds(&tokens), vec![TokenType::EOF]);
    assert_eq!(tokens[0].line, 1);
    assert!(errors.is_empty());
}

#[test]
fn whitespace_and_comments_give_only_end_marker() {
    let (tokens, errors) = scan("  \t\r\n// a comment ( ) \"\n   // trailing");
    assert_eq!(kinds(&tokens), vec![TokenType::EOF]);
    assert_eq!(tokens[0].line, 3);
    assert!(errors.is_empty());
}

#[test]
fn lexemes_and_discarded_text_rebuild_the_input() {
    let input = "x = (12.5 + y) // note\n\"s\" <= 3;";
    let (tokens, errors) = scan(input);
    assert!(errors.is_empty());
    let joined: String = lexemes(&tokens).concat();
    assert_eq!(joined, "x=(12.5+y)\"s\"<=3;");
    let mut stripped = input.replace(" // note\n", "");
    stripped.retain(|c| c != ' ');
    assert_eq!(joined, stripped);
}

#[test]
fn two_character_operators_take_priority() {
    let (tokens, _) = scan("!=");
    assert_eq!(kinds(&tokens), vec![TokenType::BANG_EQUAL, TokenType::EOF]);
    assert_eq!(tokens[0].lexeme, "!=");
    let (tokens, _) = scan("! = == <= < >= > =");
    assert_eq!(
        kinds(&tokens),
        vec![
            TokenType::BANG,
            TokenType::EQUAL,
            TokenType::EQUAL_EQUAL,
            TokenType::LESS_EQUAL,
            TokenType::LESS,
            TokenType::GREATER_EQUAL,
            TokenType::GREATER,
            TokenType::EQUAL,
            TokenType::EOF,
        ]
    );
}

#[test]
fn punctuation_maps_directly() {
    let (tokens, errors) = scan("(){},.-+;*/");
    assert!(errors.is_empty());
    assert_eq!(
        kinds(&tokens),
        vec![
            TokenType::LEFT_PAREN,
            TokenType::RIGHT_PAREN,
            TokenType::LEFT_BRACE,
            TokenType::RIGHT_BRACE,
            TokenType::COMMA,
            TokenType::DOT,
            TokenType::MINUS,
            TokenType::PLUS,
            TokenType::SEMICOLON,
            TokenType::STAR,
            TokenType::SLASH,
            TokenType::EOF,
        ]
    );
}

#[test]
fn division_is_not_a_comment() {
    let (tokens, _) = scan("a / b");
    assert_eq!(
        kinds(&tokens),
        vec![TokenType::IDENTIFIER, TokenType::SLASH, TokenType::IDENTIFIER, TokenType::EOF]
    );
    assert_eq!(lexemes(&tokens), vec!["a", "/", "b", ""]);
}

#[test]
fn comment_runs_to_end_of_line() {
    let (tokens, errors) = scan("a // b\nc");
    assert!(errors.is_empty());
    assert_eq!(kinds(&tokens), vec![TokenType::IDENTIFIER, TokenType::IDENTIFIER, TokenType::EOF]);
    assert_eq!(lexemes(&tokens), vec!["a", "c", ""]);
    assert_eq!(tokens[0].line, 1);
    assert_eq!(tokens[1].line, 2);
    assert_eq!(tokens[2].line, 2);
}

#[test]
fn second_dot_is_not_part_of_the_number() {
    let (tokens, errors) = scan("123.45.6");
    assert!(errors.is_empty());
    assert_eq!(kinds(&tokens), vec![TokenType::NUMBER, TokenType::DOT, TokenType::NUMBER, TokenType::EOF]);
    assert_eq!(tokens[0].literal, Literal::Number("123.45".to_string()));
    assert_eq!(tokens[2].literal, Literal::Number("6".to_string()));
    match &tokens[0].literal {
        Literal::Number(text) => assert_eq!(text.parse::<f32>().unwrap(), 123.45f32),
        other => panic!("not a number: {:?}", other),
    }
}

#[test]
fn trailing_dot_is_left_for_the_next_token() {
    let (tokens, _) = scan("12.foo");
    assert_eq!(kinds(&tokens), vec![TokenType::NUMBER, TokenType::DOT, TokenType::IDENTIFIER, TokenType::EOF]);
    assert_eq!(lexemes(&tokens), vec!["12", ".", "foo", ""]);
    let (tokens, _) = scan("7.");
    assert_eq!(kinds(&tokens), vec![TokenType::NUMBER, TokenType::DOT, TokenType::EOF]);
    assert_eq!(tokens[0].literal, Literal::Number("7".to_string()));
}

#[test]
fn string_keeps_embedded_newline() {
    let (tokens, errors) = scan("\"ab\ncd\"");
    assert!(errors.is_empty());
    assert_eq!(kinds(&tokens), vec![TokenType::STRING, TokenType::EOF]);
    assert_eq!(tokens[0].literal, Literal::Text("ab\ncd".to_string()));
    assert_eq!(tokens[0].lexeme, "\"ab\ncd\"");
    assert_eq!(tokens[0].line, 1);
    assert_eq!(tokens[1].line, 2);
}

#[test]
fn empty_string_literal() {
    let (tokens, _) = scan("\"\"");
    assert_eq!(tokens[0]._type, TokenType::STRING);
    assert_eq!(tokens[0].literal, Literal::Text(String::new()));
}

#[test]
fn unterminated_string_is_reported_and_dropped() {
    let (tokens, errors) = scan("\"abc");
    assert_eq!(kinds(&tokens), vec![TokenType::EOF]);
    assert_eq!(messages(&errors), vec!["Unterminated string"]);
    assert_eq!(errors[0].line, 1);
    let (tokens, errors) = scan("x \"a\nb");
    assert_eq!(kinds(&tokens), vec![TokenType::IDENTIFIER, TokenType::EOF]);
    assert_eq!(errors.len(), 1);
    assert_eq!(errors[0].line, 2);
}

#[test]
fn keywords_match_exactly() {
    let (tokens, _) = scan("true truee");
    assert_eq!(kinds(&tokens), vec![TokenType::TRUE, TokenType::IDENTIFIER, TokenType::EOF]);
    assert_eq!(tokens[1].lexeme, "truee");
    let (tokens, _) = scan("if nil while true false TRUE iff whil");
    assert_eq!(
        kinds(&tokens),
        vec![
            TokenType::IF,
            TokenType::NIL,
            TokenType::WHILE,
            TokenType::TRUE,
            TokenType::FALSE,
            TokenType::IDENTIFIER,
            TokenType::IDENTIFIER,
            TokenType::IDENTIFIER,
            TokenType::EOF,
        ]
    );
}

#[test]
fn unexpected_character_is_reported_and_skipped() {
    let (tokens, errors) = scan("@");
    assert_eq!(kinds(&tokens), vec![TokenType::EOF]);
    assert_eq!(messages(&errors), vec!["Unexpected character: '@'."]);
    assert_eq!(errors[0].line, 1);
    let (tokens, errors) = scan("a\n#b");
    assert_eq!(lexemes(&tokens), vec!["a", "b", ""]);
    assert_eq!(messages(&errors), vec!["Unexpected character: '#'."]);
    assert_eq!(errors[0].line, 2);
}

#[test]
fn identifiers_follow_unicode_letters_and_digits() {
    let (tokens, errors) = scan("héllo a1b2 x٣");
    assert!(errors.is_empty());
    assert_eq!(lexemes(&tokens), vec!["héllo", "a1b2", "x٣", ""]);
    let (tokens, errors) = scan("٣");
    assert_eq!(kinds(&tokens), vec![TokenType::EOF]);
    assert_eq!(messages(&errors), vec!["Unexpected character: '٣'."]);
    let (tokens, _) = scan("1abc");
    assert_eq!(kinds(&tokens), vec![TokenType::NUMBER, TokenType::IDENTIFIER, TokenType::EOF]);
}

#[test]
fn tab_is_whitespace() {
    let (tokens, errors) = scan("\tt\r");
    assert!(errors.is_empty());
    assert_eq!(lexemes(&tokens), vec!["t", ""]);
}

#[test]
fn lines_count_newlines() {
    let (tokens, _) = scan("a\nb\n\nc\n");
    let lines: Vec<usize> = tokens.iter().map(|t| t.line).collect();
    assert_eq!(lines, vec![1, 2, 4, 5]);
}

#[test]
fn scanner_reports_errors_on_request() {
    let mut scanner = Scanner::new("x @ y");
    let count = scanner.scan_tokens().len();
    assert_eq!(count, 3);
    assert!(scanner.had_error());
    assert_eq!(messages(scanner.errors()), vec!["Unexpected character: '@'."]);
    let clean = Scanner::new("x y");
    assert!(!clean.had_error());
}

#[test]
fn scanning_again_appends_another_end_marker() {
    let mut scanner = Scanner::new("x");
    scanner.scan_tokens();
    let tokens = scanner.scan_tokens();
    assert_eq!(kinds(tokens), vec![TokenType::IDENTIFIER, TokenType::EOF, TokenType::EOF]);
}
