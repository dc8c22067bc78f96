use odo::base::lexer::{classify, Character, LexError, Lexer, Token, TokenType};

fn lex(input: &str) -> Vec<Token> {
    Lexer::new(input.to_string()).collect().unwrap()
}

fn kinds(tokens: &[Token]) -> Vec<TokenType> {
    tokens.iter().map(|token| token.token_type).collect()
}

fn texts(tokens: &[Token]) -> Vec<String> {
    tokens.iter().map(|token| token.value.clone()).collect()
}

#[test]
fn lexes_a_declaration() {
    let tokens = lex("var x = 1");
    assert_eq!(
        kinds(&tokens),
        vec![TokenType::Var, TokenType::Name, TokenType::Assign, TokenType::Number]
    );
    assert_eq!(texts(&tokens), vec!["var", "x", "=", "1"]);
    let columns: Vec<usize> = tokens.iter().map(|token| token.column).collect();
    assert_eq!(columns, vec![0, 4, 6, 8]);
    assert!(tokens.iter().all(|token| token.line == 1));
}

#[test]
fn the_line_break_is_a_token() {
    let tokens = lex("a\nbc\n\n d");
    assert_eq!(
        kinds(&tokens),
        vec![
            TokenType::Name,
            TokenType::NewLine,
            TokenType::Name,
            TokenType::NewLine,
            TokenType::NewLine,
            TokenType::Name,
        ]
    );
    let places: Vec<(usize, usize)> = tokens.iter().map(|token| (token.line, token.column)).collect();
    assert_eq!(places, vec![(1, 0), (1, 1), (2, 0), (2, 2), (3, 0), (4, 1)]);
    assert_eq!(tokens[1].value, "\n");
}

#[test]
fn other_whitespace_is_skipped() {
    let tokens = lex(" \t x \r  y\t");
    assert_eq!(kinds(&tokens), vec![TokenType::Name, TokenType::Name]);
    assert_eq!(texts(&tokens), vec!["x", "y"]);
    assert_eq!(tokens[0].column, 3);
}

#[test]
fn the_empty_text_has_no_tokens() {
    assert!(lex("").is_empty());
    assert!(lex("   \t ").is_empty());
}

#[test]
fn keywords_are_matched_exactly() {
    let tokens = lex("var true false if vars True iff x");
    assert_eq!(
        kinds(&tokens),
        vec![
            TokenType::Var,
            TokenType::Truth,
            TokenType::Truth,
            TokenType::If,
            TokenType::Name,
            TokenType::Name,
            TokenType::Name,
            TokenType::Name,
        ]
    );
}

#[test]
fn names_are_runs_of_letters() {
    let tokens = lex("ab1cd");
    assert_eq!(kinds(&tokens), vec![TokenType::Name, TokenType::Number, TokenType::Name]);
    assert_eq!(texts(&tokens), vec!["ab", "1", "cd"]);
    let tokens = lex("été");
    assert_eq!(kinds(&tokens), vec![TokenType::Name]);
    assert_eq!(tokens[0].value, "été");
}

#[test]
fn numbers_are_maximal_runs_of_digits() {
    let tokens = lex("123 45");
    assert_eq!(kinds(&tokens), vec![TokenType::Number, TokenType::Number]);
    assert_eq!(texts(&tokens), vec!["123", "45"]);
}

#[test]
fn punctuation_is_one_character_each() {
    let tokens = lex("={};:");
    assert_eq!(
        kinds(&tokens),
        vec![
            TokenType::Assign,
            TokenType::LeftCurly,
            TokenType::RightCurly,
            TokenType::SemiColon,
            TokenType::DebugPrint,
        ]
    );
    assert_eq!(texts(&tokens), vec!["=", "{", "}", ";", ":"]);
}

#[test]
fn text_literals_hold_their_contents() {
    let tokens = lex("\"hello world\" \"\"");
    assert_eq!(kinds(&tokens), vec![TokenType::Text, TokenType::Text]);
    assert_eq!(texts(&tokens), vec!["hello world", ""]);
    assert_eq!(tokens[0].column, 0);
    assert_eq!(tokens[1].column, 14);
}

#[test]
fn escapes_are_replaced() {
    let tokens = lex("\"a\\nb\\rc\\td\\be\\af\\vg\\\\h\\\"i\\'j\\?k\\ql\"");
    assert_eq!(tokens.len(), 1);
    assert_eq!(tokens[0].value, "a\nb\rc\td\u{8}e\u{7}f\u{b}g\\h\"i'j?kql");
}

#[test]
fn a_text_may_span_lines() {
    let tokens = lex("\"a\nb\" c");
    assert_eq!(texts(&tokens), vec!["a\nb", "c"]);
    assert_eq!((tokens[1].line, tokens[1].column), (2, 3));
}

#[test]
fn an_open_text_is_an_error() {
    assert_eq!(Lexer::new("\"abc".to_string()).collect().unwrap_err(), LexError::UnterminatedText);
    assert_eq!(Lexer::new("x \"abc\\".to_string()).collect().unwrap_err(), LexError::UnterminatedText);
    assert_eq!(Lexer::new("\"".to_string()).collect().unwrap_err(), LexError::UnterminatedText);
}

#[test]
fn a_strange_character_is_an_error() {
    assert_eq!(
        Lexer::new("x = (1)".to_string()).collect().unwrap_err(),
        LexError::UnexpectedCharacter('(')
    );
    assert_eq!(Lexer::new("@".to_string()).collect().unwrap_err(), LexError::UnexpectedCharacter('@'));
    assert_eq!(Lexer::new("a,b".to_string()).collect().unwrap_err(), LexError::UnexpectedCharacter(','));
}

#[test]
fn tokens_come_one_by_one() {
    let mut lexer = Lexer::new("x = 1".to_string());
    assert_eq!(lexer.next().unwrap().unwrap().token_type, TokenType::Name);
    assert_eq!(lexer.next().unwrap().unwrap().token_type, TokenType::Assign);
    assert_eq!(lexer.next().unwrap().unwrap().value, "1");
    assert!(lexer.next().is_none());
    assert!(lexer.next().is_none());
}

#[test]
fn nothing_comes_after_an_error() {
    let mut lexer = Lexer::new("x # y".to_string());
    assert_eq!(lexer.next().unwrap().unwrap().value, "x");
    assert_eq!(lexer.next().unwrap().unwrap_err(), LexError::UnexpectedCharacter('#'));
    assert!(lexer.next().is_none());
}

#[test]
fn lexical_errors_describe_themselves() {
    assert_eq!(LexError::UnterminatedText.description(), "Unterminated text literal");
    assert_eq!(LexError::UnexpectedCharacter('#').description(), "Unexpected character: #");
}

#[test]
fn tokens_describe_themselves() {
    let token = Token::new(TokenType::Name, "x".to_string(), 3, 7);
    assert_eq!(token.description(), "Name \"x\"");
    assert_eq!((token.line, token.column), (3, 7));
    assert_eq!(TokenType::RightCurly.name(), "RightCurly");
    let copy = token.clone();
    assert_eq!(format!("{:?}", copy), format!("{:?}", token));
}

#[test]
fn characters_carry_their_classes() {
    let letter = classify('é');
    assert_eq!(letter.value, 'é');
    assert!(letter.alphabetic && !letter.numeric && !letter.whitespace);
    let digit = classify('7');
    assert!(!digit.alphabetic && digit.numeric && !digit.whitespace);
    let space = classify('\t');
    assert!(!space.alphabetic && !space.numeric && space.whitespace);
    let line_break = classify('\n');
    assert!(line_break.whitespace);
    let sign = classify('=');
    assert!(!sign.alphabetic && !sign.numeric && !sign.whitespace);
}

#[test]
fn the_lexer_goes_by_the_classes_it_is_given() {
    let letter = |value: char| Character { value, alphabetic: true, numeric: false, whitespace: false };
    let digit = |value: char| Character { value, alphabetic: false, numeric: true, whitespace: false };
    let blank = |value: char| Character { value, alphabetic: false, numeric: false, whitespace: true };
    let code = vec![letter('i'), letter('f'), blank('_'), digit('x'), digit('y'), blank('\n'), letter('1')];
    let tokens = Lexer::from_characters(code).collect().unwrap();
    assert_eq!(
        kinds(&tokens),
        vec![TokenType::If, TokenType::Number, TokenType::NewLine, TokenType::Name]
    );
    assert_eq!(texts(&tokens), vec!["if", "xy", "\n", "1"]);
    let same_as_new = Lexer::from_characters("var x = 1".chars().map(classify).collect()).collect().unwrap();
    assert_eq!(format!("{:?}", same_as_new), format!("{:?}", lex("var x = 1")));
}
