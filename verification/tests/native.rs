use odo::base::lexer::{Token, TokenType};
use odo::base::parser::Parser;
use odo::base::semantic_analyzer::{
    SemanticError, SymbolVariant, GLOBAL_SCOPE_ID, REPL_SCOPE_ID,
};
use odo::exec::interpreter::{Effect, EvalError, Interpreter};
use odo::exec::value::{FunctionValue, ValueVariant};
use odo::identity::Identities;
use odo::native::function::NativeFunctionBindable;

fn token(token_type: TokenType, value: &str) -> Token {
    Token::new(token_type, value.to_string(), 1, 0)
}

fn call_of(name: &str, arguments: &[&str]) -> Vec<Token> {
    let mut tokens = vec![token(TokenType::Name, name), token(TokenType::LeftParen, "(")];
    for (i, argument) in arguments.iter().enumerate() {
        if i > 0 {
            tokens.push(token(TokenType::Comma, ","));
        }
        tokens.push(token(TokenType::Number, argument));
    }
    tokens.push(token(TokenType::RightParen, ")"));
    tokens
}

#[test]
fn a_bound_function_is_a_symbol_with_a_value() {
    let mut interpreter = Interpreter::new();
    let mut ids = Identities::new(vec![70, 71, 72, 73]);
    interpreter.bind_void_function_with("hello", 9, &mut ids).unwrap();
    assert_eq!(ids.remaining(), 1);
    let global = interpreter.semantic_analyzer.scope(GLOBAL_SCOPE_ID).unwrap();
    let function_type = global.lookup_id(70).unwrap();
    assert_eq!(function_type.name, "<:>");
    assert!(matches!(
        &function_type.variant,
        SymbolVariant::FunctionType(function) if function.return_id.is_none() && function.argument_ids.is_empty()
    ));
    let function = global.lookup("hello".to_string()).unwrap();
    assert_eq!(function.symbol_id, 71);
    assert!(matches!(&function.variant, SymbolVariant::NativeFunction(native) if native.type_id == 70));
    let value = interpreter.value_table.get(72).unwrap();
    assert!(matches!(value.content, ValueVariant::Function(FunctionValue::Native(9))));
    let read = interpreter.eval("hello".to_string()).unwrap().value.unwrap();
    assert_eq!(read.uuid, 72);
}

#[test]
fn a_bound_function_is_called_by_name() {
    let mut interpreter = Interpreter::new();
    interpreter.bind_void_function("hello", 9).unwrap();
    interpreter.bind_void_function("bye", 10).unwrap();
    let mut tokens = call_of("hello", &[]);
    tokens.push(token(TokenType::SemiColon, ";"));
    tokens.extend(call_of("bye", &[]));
    let statements = Parser::new(tokens).statement_list().unwrap();
    let result = interpreter.run(&statements, &mut Identities::draw(0)).unwrap();
    assert!(result.value.is_none());
    let effects = interpreter.take_effects();
    assert_eq!(effects.len(), 2);
    assert!(matches!(&effects[0], Effect::NativeCall(9, arguments) if arguments.is_empty()));
    assert!(matches!(&effects[1], Effect::NativeCall(10, arguments) if arguments.is_empty()));
}

#[test]
fn a_bound_function_takes_no_arguments_and_gives_no_value() {
    let mut interpreter = Interpreter::new();
    interpreter.bind_void_function("hello", 9).unwrap();
    let statements = Parser::new(call_of("hello", &["1"])).statement_list().unwrap();
    let error = interpreter.run(&statements, &mut Identities::draw(1)).unwrap_err();
    assert!(matches!(error, EvalError::Semantic(SemanticError::WrongArgumentCount)));
    let mut tokens = vec![token(TokenType::Var, "var"), token(TokenType::Name, "x"), token(TokenType::Assign, "=")];
    tokens.extend(call_of("hello", &[]));
    let statements = Parser::new(tokens).statement_list().unwrap();
    let error = interpreter.run(&statements, &mut Identities::draw(1)).unwrap_err();
    assert!(matches!(error, EvalError::Semantic(SemanticError::MissingValue)));
    assert!(interpreter.take_effects().is_empty());
}

#[test]
fn a_function_is_bound_in_the_current_scope() {
    let mut interpreter = Interpreter::new();
    interpreter.semantic_analyzer.push_scope(REPL_SCOPE_ID);
    interpreter.bind_void_function("hello", 9).unwrap();
    let top = interpreter.semantic_analyzer.scope(REPL_SCOPE_ID).unwrap();
    assert!(top.lookup("hello".to_string()).is_some());
    let global = interpreter.semantic_analyzer.scope(GLOBAL_SCOPE_ID).unwrap();
    assert!(global.lookup("hello".to_string()).is_none());
    assert!(global.lookup("<:>".to_string()).is_some());
}

#[test]
fn binding_needs_three_identities_and_a_scope() {
    let mut interpreter = Interpreter::new();
    let mut ids = Identities::new(vec![70, 71]);
    let error = interpreter.bind_void_function_with("hello", 9, &mut ids).unwrap_err();
    assert!(matches!(error, SemanticError::OutOfIdentities));
    assert_eq!(ids.remaining(), 2);
    assert!(interpreter.eval("hello".to_string()).is_err());
    interpreter.semantic_analyzer.push_scope(4242);
    let error = interpreter.bind_void_function("hello", 9).unwrap_err();
    assert!(matches!(error, SemanticError::NoCurrentScope));
}
