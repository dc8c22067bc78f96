use odo::base::lexer::{Lexer, Token, TokenType};
use odo::base::parser::{Ast, Error, Parser};

fn parser(input: &str) -> Parser {
    let lexer = Lexer::new(input.to_string());
    let tokens = lexer.collect().unwrap();
    Parser::new(tokens)
}

fn token(token_type: TokenType, value: &str) -> Token {
    Token::new(token_type, value.to_string(), 1, 0)
}

fn shape(ast: &Ast) -> String {
    match ast {
        Ast::Block(nodes) => {
            let inner: Vec<String> = nodes.iter().map(|node| shape(node)).collect();
            format!("{{{}}}", inner.join(" "))
        }
        Ast::Number(token) => format!("#{}", token.value),
        Ast::Truth(token) => format!("?{}", token.value),
        Ast::Text(token) => format!("\"{}\"", token.value),
        Ast::Variable(token) => token.value.clone(),
        Ast::Assignment(target, value) => format!("({} = {})", shape(target), shape(value)),
        Ast::Declaration(name, value) => format!("(var {} = {})", name.value, shape(value)),
        Ast::FunctionCall(callee, arguments) => {
            let inner: Vec<String> = arguments.iter().map(|node| shape(node)).collect();
            format!("{}({})", shape(callee), inner.join(","))
        }
        Ast::If(condition, body) => format!("(if {} {})", shape(condition), shape(body)),
        Ast::DebugPrint(value) => format!("(: {})", shape(value)),
    }
}

fn shapes(nodes: &[Box<Ast>]) -> Vec<String> {
    nodes.iter().map(|node| shape(node)).collect()
}

#[test]
fn test_parse_declaration() {
    let mut parser = parser("var x = 1");
    let ast = parser.parse_statement().unwrap();

    assert_eq!(format!("{:?}", ast), "Declaration(Token { token_type: Name, value: \"x\", line: 1, column: 4 }, Number(Token { token_type: Number, value: \"1\", line: 1, column: 8 }))");
}

#[test]
fn test_parse_assignment() {
    let mut parser = parser("x = 1");
    let ast = parser.parse_statement().unwrap();

    assert_eq!(format!("{:?}", ast), "Assignment(Variable(Token { token_type: Name, value: \"x\", line: 1, column: 0 }), Number(Token { token_type: Number, value: \"1\", line: 1, column: 4 }))");
}

#[test]
fn parser_test_parse_declaration() {
    let mut parser = parser("var x = 1");
    let ast = parser.parse_statement().unwrap();

    assert_eq!(format!("{:?}", ast), "Declaration(Token { token_type: Name, value: \"x\", line: 1, column: 4 }, Number(Token { token_type: Number, value: \"1\", line: 1, column: 8 }))");
}

#[test]
fn parser_test_parse_assignment() {
    let mut parser = parser("x = 1");
    let ast = parser.parse_statement().unwrap();

    assert_eq!(format!("{:?}", ast), "Assignment(Variable(Token { token_type: Name, value: \"x\", line: 1, column: 0 }), Number(Token { token_type: Number, value: \"1\", line: 1, column: 4 }))");
}

#[test]
fn statements_end_at_line_breaks_and_semicolons() {
    let nodes = parser("var x = 1\nvar y = x\n:y").statement_list().unwrap();
    assert_eq!(shapes(&nodes), vec!["(var x = #1)", "(var y = x)", "(: y)"]);
    let nodes = parser("x = 1; y = 2;\n\n z").statement_list().unwrap();
    assert_eq!(shapes(&nodes), vec!["(x = #1)", "(y = #2)", "z"]);
    let nodes = parser("\n\n x \n\n\n").statement_list().unwrap();
    assert_eq!(shapes(&nodes), vec!["x"]);
}

#[test]
fn a_statement_needs_a_terminator() {
    let error = parser("x y").statement_list().unwrap_err();
    assert!(matches!(
        &error,
        Error::UnexpectedToken(TokenType::NewLine, got) if got.value == "y" && got.column == 2
    ));
    assert_eq!(error.description(), "Expected token of type NewLine but got Name \"y\"");
}

#[test]
fn blocks_hold_statements() {
    let ast = parser("{ var z = 5 }").parse_statement().unwrap();
    assert_eq!(shape(&ast), "{(var z = #5)}");
    let ast = parser("{\n\n x = 1\n y = 2; z\n}").parse_statement().unwrap();
    assert_eq!(shape(&ast), "{(x = #1) (y = #2) z}");
    let ast = parser("{ { a } \n b }").parse_statement().unwrap();
    assert_eq!(shape(&ast), "{{a} b}");
}

#[test]
fn a_block_may_be_empty() {
    assert_eq!(shape(&parser("{}").parse_statement().unwrap()), "{}");
    assert_eq!(shape(&parser("{\n\n}").parse_statement().unwrap()), "{}");
}

#[test]
fn a_block_must_be_closed() {
    assert!(matches!(parser("{ x").parse_statement().unwrap_err(), Error::SuddenEndOfFile));
    assert!(matches!(parser("{").parse_statement().unwrap_err(), Error::SuddenEndOfFile));
}

#[test]
fn a_conditional_has_a_condition_and_one_statement() {
    let ast = parser("if true { var z = 5 }").parse_statement().unwrap();
    assert_eq!(shape(&ast), "(if ?true {(var z = #5)})");
    let ast = parser("if x y = 1").parse_statement().unwrap();
    assert_eq!(shape(&ast), "(if x (y = #1))");
    assert!(matches!(parser("if true").parse_statement().unwrap_err(), Error::SuddenEndOfFile));
    assert!(matches!(parser("if").parse_statement().unwrap_err(), Error::SuddenEndOfFile));
}

#[test]
fn a_conditional_and_its_body_each_need_a_terminator() {
    let nodes = parser("if true x; ; y").statement_list().unwrap();
    assert_eq!(shapes(&nodes), vec!["(if ?true x)", "y"]);
    let error = parser("if true { }\ny").statement_list().unwrap_err();
    assert!(matches!(error, Error::UnexpectedToken(TokenType::NewLine, got) if got.value == "y"));
}

#[test]
fn debug_print_takes_an_expression() {
    assert_eq!(shape(&parser(":x").parse_statement().unwrap()), "(: x)");
    assert_eq!(shape(&parser(": \n 1").parse_statement().unwrap()), "(: #1)");
    assert!(matches!(parser(":").parse_statement().unwrap_err(), Error::SuddenEndOfFile));
}

#[test]
fn assignments_nest_to_the_right() {
    assert_eq!(shape(&parser("a = b = 1").parse_statement().unwrap()), "(a = (b = #1))");
    assert_eq!(shape(&parser("a =\n\n 1").parse_statement().unwrap()), "(a = #1)");
    assert_eq!(shape(&parser("1 = 2").parse_statement().unwrap()), "(#1 = #2)");
}

#[test]
fn literals_and_names_are_factors() {
    assert_eq!(shape(&parser("12").parse_statement().unwrap()), "#12");
    assert_eq!(shape(&parser("false").parse_statement().unwrap()), "?false");
    assert_eq!(shape(&parser("\"hi\"").parse_statement().unwrap()), "\"hi\"");
    assert_eq!(shape(&parser("name").parse_statement().unwrap()), "name");
}

#[test]
fn calls_take_arguments() {
    let tokens = vec![
        token(TokenType::Name, "f"),
        token(TokenType::LeftParen, "("),
        token(TokenType::NewLine, "\n"),
        token(TokenType::Number, "1"),
        token(TokenType::NewLine, "\n"),
        token(TokenType::Comma, ","),
        token(TokenType::Name, "x"),
        token(TokenType::Assign, "="),
        token(TokenType::Number, "2"),
        token(TokenType::RightParen, ")"),
        token(TokenType::LeftParen, "("),
        token(TokenType::RightParen, ")"),
    ];
    let ast = Parser::new(tokens).parse_statement().unwrap();
    assert_eq!(shape(&ast), "f(#1,(x = #2))()");
}

#[test]
fn a_call_allows_a_trailing_comma_and_needs_its_parenthesis() {
    let tokens = vec![
        token(TokenType::Name, "f"),
        token(TokenType::LeftParen, "("),
        token(TokenType::Number, "1"),
        token(TokenType::Comma, ","),
        token(TokenType::RightParen, ")"),
    ];
    assert_eq!(shape(&Parser::new(tokens).parse_statement().unwrap()), "f(#1)");
    let tokens = vec![
        token(TokenType::Name, "f"),
        token(TokenType::LeftParen, "("),
        token(TokenType::Number, "1"),
    ];
    assert!(matches!(Parser::new(tokens).parse_statement().unwrap_err(), Error::SuddenEndOfFile));
    let tokens = vec![
        token(TokenType::Name, "f"),
        token(TokenType::LeftParen, "("),
        token(TokenType::Number, "1"),
        token(TokenType::SemiColon, ";"),
    ];
    assert!(matches!(
        Parser::new(tokens).parse_statement().unwrap_err(),
        Error::UnexpectedToken(TokenType::RightParen, got) if got.token_type == TokenType::SemiColon
    ));
}

#[test]
fn a_declaration_needs_a_name_and_an_assignment() {
    let error = parser("var = 1").parse_statement().unwrap_err();
    assert!(matches!(&error, Error::UnexpectedToken(TokenType::Name, got) if got.value == "="));
    assert_eq!(error.description(), "Expected token of type Name but got Assign \"=\"");
    let error = parser("var x 1").parse_statement().unwrap_err();
    assert!(matches!(&error, Error::ExpectedAssignment(Some(got)) if got.value == "1"));
    assert_eq!(
        error.description(),
        "Expected an assignment statement ('=') but got Number \"1\""
    );
    let error = parser("var x").parse_statement().unwrap_err();
    assert!(matches!(&error, Error::ExpectedAssignment(None)));
    assert_eq!(
        error.description(),
        "Expected an assignment statement ('='): unexpected end of file"
    );
    let error = parser("var").parse_statement().unwrap_err();
    assert!(matches!(&error, Error::SuddenEndOfFile));
    assert_eq!(error.description(), "Unexpected end of file");
    assert!(matches!(parser("var x =").parse_statement().unwrap_err(), Error::SuddenEndOfFile));
    assert_eq!(shape(&parser("var \n x = 1").parse_statement().unwrap()), "(var x = #1)");
}

#[test]
fn an_expression_starts_with_a_factor() {
    let error = parser("= 1").parse_statement().unwrap_err();
    assert!(matches!(&error, Error::ExpectedExpression(got) if got.token_type == TokenType::Assign));
    assert_eq!(error.description(), "Unexpected token Assign \"=\"");
    assert!(matches!(
        parser("x = ;").parse_statement().unwrap_err(),
        Error::ExpectedExpression(got) if got.token_type == TokenType::SemiColon
    ));
}

#[test]
fn the_end_of_input_is_no_statement() {
    assert!(matches!(parser("").parse_statement().unwrap_err(), Error::SuddenEndOfFile));
    assert!(matches!(
        parser("\n\n").parse_statement_without_terminator().unwrap_err(),
        Error::SuddenEndOfFile
    ));
}

#[test]
fn a_statement_without_terminator_leaves_the_terminator() {
    let mut parser = parser("x = 1; y");
    assert_eq!(shape(&parser.parse_statement_without_terminator().unwrap()), "(x = #1)");
    let error = parser.parse_statement_without_terminator().unwrap_err();
    assert!(matches!(error, Error::ExpectedExpression(got) if got.value == ";"));
}

#[test]
fn a_statement_list_stops_at_a_closing_curly() {
    let mut parser = parser("x\ny } z");
    assert_eq!(shapes(&parser.statement_list().unwrap()), vec!["x", "y"]);
    assert!(parser.statement_list().unwrap().is_empty());
    assert_eq!(shapes(&parser.statement_list().unwrap()), vec!["z"]);
    assert!(parser.statement_list().unwrap().is_empty());
}

#[test]
fn a_program_is_one_block() {
    let ast = parser("var x = 1\nx = 2").parse().unwrap();
    assert_eq!(shape(&ast), "{(var x = #1) (x = #2)}");
    assert_eq!(shape(&parser("").parse().unwrap()), "{}");
    assert!(matches!(
        parser("x\n}").parse().unwrap_err(),
        Error::ExpectedExpression(got) if got.token_type == TokenType::RightCurly
    ));
}

#[test]
fn a_tree_is_copied_whole() {
    let tokens = vec![
        token(TokenType::LeftCurly, "{"),
        token(TokenType::Var, "var"),
        token(TokenType::Name, "x"),
        token(TokenType::Assign, "="),
        token(TokenType::Name, "f"),
        token(TokenType::LeftParen, "("),
        token(TokenType::Number, "1"),
        token(TokenType::Comma, ","),
        token(TokenType::Text, "a"),
        token(TokenType::RightParen, ")"),
        token(TokenType::SemiColon, ";"),
        token(TokenType::If, "if"),
        token(TokenType::Truth, "true"),
        token(TokenType::DebugPrint, ":"),
        token(TokenType::Name, "x"),
        token(TokenType::RightCurly, "}"),
    ];
    let ast = Parser::new(tokens).parse_statement().unwrap();
    let copy = ast.clone();
    assert_eq!(format!("{:?}", copy), format!("{:?}", ast));
    assert_eq!(shape(&copy), "{(var x = f(#1,\"a\")) (if ?true (: x))}");
}
