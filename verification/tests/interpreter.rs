use odo::base::lexer::{LexError, Token, TokenType};
use odo::base::parser::Error;
use odo::base::semantic_analyzer::{
    SemanticAst, SemanticError, GLOBAL_SCOPE_ID, INT_TYPE_ID, REPL_SCOPE_ID,
};
use odo::exec::interpreter::{
    count_needs, count_values, parse_source, Effect, EvalError, ExecutionResult, InterpretError,
    Interpreter,
};
use odo::exec::value::{FunctionValue, PrimitiveValue, Value, ValueTable, ValueVariant};
use odo::identity::Identities;

fn int_of(value: &Value) -> i64 {
    match &value.content {
        ValueVariant::Primitive(PrimitiveValue::Int(number)) => *number,
        other => panic!("not an integer: {:?}", other),
    }
}

fn text_of(value: &Value) -> String {
    match &value.content {
        ValueVariant::Primitive(PrimitiveValue::Text(text)) => text.clone(),
        other => panic!("not a text: {:?}", other),
    }
}

fn truth_of(value: &Value) -> bool {
    match &value.content {
        ValueVariant::Primitive(PrimitiveValue::Bool(truth)) => *truth,
        other => panic!("not a truth: {:?}", other),
    }
}

fn value_of(interpreter: &mut Interpreter, code: &str) -> Value {
    interpreter.eval(code.to_string()).unwrap().value.unwrap()
}

fn token(token_type: TokenType, value: &str) -> Token {
    Token::new(token_type, value.to_string(), 1, 0)
}

fn at_top_level() -> Interpreter {
    let mut interpreter = Interpreter::new();
    interpreter.semantic_analyzer.push_scope(REPL_SCOPE_ID);
    interpreter
}

fn interpret(interpreter: &mut Interpreter, tree: SemanticAst, ids: Vec<u128>) -> Result<ExecutionResult, InterpretError> {
    interpreter.interpret_with(&tree, &mut Identities::new(ids))
}

#[test]
fn a_declared_integer_is_read_back() {
    let mut interpreter = Interpreter::new();
    assert!(interpreter.eval("var x = 42".to_string()).unwrap().value.is_none());
    assert_eq!(int_of(&value_of(&mut interpreter, "x")), 42);
    assert_eq!(int_of(&value_of(&mut interpreter, "x")), 42);
}

#[test]
fn a_declared_text_is_read_back() {
    let mut interpreter = Interpreter::new();
    interpreter.eval("var greeting = \"hello\\n\"".to_string()).unwrap();
    assert_eq!(text_of(&value_of(&mut interpreter, "greeting")), "hello\n");
}

#[test]
fn a_declared_truth_is_read_back() {
    let mut interpreter = Interpreter::new();
    interpreter.eval("var yes = true; var no = false".to_string()).unwrap();
    assert!(truth_of(&value_of(&mut interpreter, "yes")));
    assert!(!truth_of(&value_of(&mut interpreter, "no")));
}

#[test]
fn the_identities_supplied_are_the_ones_used() {
    let mut interpreter = Interpreter::new();
    let mut ids = Identities::new(vec![100, 200, 300]);
    let result = interpreter.eval_with("var x = 7".to_string(), &mut ids).unwrap();
    assert!(result.value.is_none());
    assert_eq!(ids.remaining(), 1);
    let read = interpreter.eval_with("x".to_string(), &mut ids).unwrap().value.unwrap();
    assert_eq!(read.uuid, 200);
    assert_eq!(int_of(&read), 7);
    assert_eq!(ids.remaining(), 1);
    let top = interpreter.semantic_analyzer.scope(REPL_SCOPE_ID).unwrap();
    assert_eq!(top.lookup("x".to_string()).unwrap().symbol_id, 100);
    assert_eq!(int_of(interpreter.value_table.get(200).unwrap()), 7);
    assert!(interpreter.value_table.get(100).is_none());
    assert_eq!(interpreter.semantic_analyzer.current_scope_id(), GLOBAL_SCOPE_ID);
}

#[test]
fn the_value_of_the_last_statement_is_the_result() {
    let mut interpreter = Interpreter::new();
    assert_eq!(int_of(&value_of(&mut interpreter, "1; 2; 3")), 3);
    assert!(interpreter.eval("1; var x = 2".to_string()).unwrap().value.is_none());
    assert!(interpreter.eval("".to_string()).unwrap().value.is_none());
    assert!(interpreter.eval("\n\n".to_string()).unwrap().value.is_none());
    assert_eq!(text_of(&value_of(&mut interpreter, "x; \"last\"")), "last");
}

#[test]
fn a_copy_shares_the_value() {
    let mut interpreter = Interpreter::new();
    interpreter.eval("var a = 1; var b = a".to_string()).unwrap();
    let a = value_of(&mut interpreter, "a");
    let b = value_of(&mut interpreter, "b");
    assert_eq!(a.uuid, b.uuid);
    assert_eq!(int_of(&a), 1);
    assert_eq!(int_of(&b), 1);
}

#[test]
fn an_assignment_replaces_the_value_of_one_variable_only() {
    let mut interpreter = Interpreter::new();
    interpreter.eval("var a = 1; var b = a".to_string()).unwrap();
    assert!(interpreter.eval("a = 2".to_string()).unwrap().value.is_none());
    let a = value_of(&mut interpreter, "a");
    let b = value_of(&mut interpreter, "b");
    assert_eq!(int_of(&a), 2);
    assert_eq!(int_of(&b), 1);
    assert_ne!(a.uuid, b.uuid);
    interpreter.eval("b = a; a = 3".to_string()).unwrap();
    assert_eq!(int_of(&value_of(&mut interpreter, "b")), 2);
    assert_eq!(int_of(&value_of(&mut interpreter, "a")), 3);
}

#[test]
fn an_assignment_of_another_type_changes_nothing() {
    let mut interpreter = Interpreter::new();
    interpreter.eval("var x = 1".to_string()).unwrap();
    let error = interpreter.eval("x = \"a\"".to_string()).unwrap_err();
    assert!(matches!(
        &error,
        EvalError::Semantic(SemanticError::TypeMismatch(expected, got))
            if expected == "int" && got == "string"
    ));
    assert_eq!(
        error.description(),
        "Type mismatch: Expected type \"int\" but got type \"string\""
    );
    assert_eq!(int_of(&value_of(&mut interpreter, "x")), 1);
}

#[test]
fn a_second_declaration_is_rejected() {
    let mut interpreter = Interpreter::new();
    let error = interpreter.eval("var x = 1; var x = 2".to_string()).unwrap_err();
    assert!(matches!(
        error,
        EvalError::Semantic(SemanticError::DuplicateDeclaration(name)) if name == "x"
    ));
    assert_eq!(int_of(&value_of(&mut interpreter, "x")), 1);
    let error = interpreter.eval("var x = 3".to_string()).unwrap_err();
    assert!(matches!(error, EvalError::Semantic(SemanticError::DuplicateDeclaration(_))));
}

#[test]
fn a_block_shadows_inside_only() {
    let mut interpreter = Interpreter::new();
    let result = interpreter.eval("var x = 1\n{ var x = \"inner\"\n :x }\nx".to_string()).unwrap();
    assert_eq!(int_of(&result.value.unwrap()), 1);
    let effects = interpreter.take_effects();
    assert_eq!(effects.len(), 1);
    assert!(matches!(&effects[0], Effect::DebugPrint(Some(value)) if text_of(value) == "inner"));
    assert_eq!(int_of(&value_of(&mut interpreter, "x")), 1);
}

#[test]
fn a_block_assigns_outer_variables() {
    let mut interpreter = Interpreter::new();
    interpreter.eval("var x = 1\n{ x = 2 }".to_string()).unwrap();
    assert_eq!(int_of(&value_of(&mut interpreter, "x")), 2);
}

#[test]
fn a_true_condition_runs_the_body_once() {
    let mut interpreter = Interpreter::new();
    let result = interpreter.eval("var n = 1\nif true { :n\n n = 2 }".to_string()).unwrap();
    assert!(result.value.is_none());
    let effects = interpreter.take_effects();
    assert_eq!(effects.len(), 1);
    assert!(matches!(&effects[0], Effect::DebugPrint(Some(value)) if int_of(value) == 1));
    assert_eq!(int_of(&value_of(&mut interpreter, "n")), 2);
}

#[test]
fn a_false_condition_skips_the_body() {
    let mut interpreter = Interpreter::new();
    let result = interpreter.eval("var n = 1\nif false { :n\n n = 2 }".to_string()).unwrap();
    assert!(result.value.is_none());
    assert!(interpreter.take_effects().is_empty());
    assert_eq!(int_of(&value_of(&mut interpreter, "n")), 1);
    interpreter.eval("var t = false; if t n = 3".to_string()).unwrap();
    assert_eq!(int_of(&value_of(&mut interpreter, "n")), 1);
    interpreter.eval("t = true; if t n = 3".to_string()).unwrap();
    assert_eq!(int_of(&value_of(&mut interpreter, "n")), 3);
}

#[test]
fn a_condition_of_another_type_runs_nothing() {
    let mut interpreter = Interpreter::new();
    interpreter.eval("var n = 1".to_string()).unwrap();
    let error = interpreter.eval(":n\nif n { n = 2 }".to_string()).unwrap_err();
    assert!(matches!(&error, EvalError::Semantic(SemanticError::ConditionNotTruth)));
    assert_eq!(error.description(), "If condition must be a truth");
    assert_eq!(interpreter.take_effects().len(), 1);
    let error = interpreter.eval("if 1 { :n\n n = 2 }".to_string()).unwrap_err();
    assert!(matches!(error, EvalError::Semantic(SemanticError::ConditionNotTruth)));
    assert!(interpreter.take_effects().is_empty());
    assert_eq!(int_of(&value_of(&mut interpreter, "n")), 1);
}

#[test]
fn what_ran_before_a_failure_stays() {
    let mut interpreter = Interpreter::new();
    let error = interpreter.eval("var a = 1; :a; b; var c = 3".to_string()).unwrap_err();
    assert!(matches!(error, EvalError::Semantic(SemanticError::UnknownVariable(name)) if name == "b"));
    assert_eq!(interpreter.take_effects().len(), 1);
    assert_eq!(int_of(&value_of(&mut interpreter, "a")), 1);
    let error = interpreter.eval("c".to_string()).unwrap_err();
    assert!(matches!(error, EvalError::Semantic(SemanticError::UnknownVariable(_))));
}

#[test]
fn a_failure_in_a_block_does_not_hinder_the_next_evaluation() {
    let mut interpreter = Interpreter::new();
    interpreter.eval("var a = 1".to_string()).unwrap();
    assert!(interpreter.eval("{ var b = 2\n c }".to_string()).is_err());
    assert_ne!(interpreter.semantic_analyzer.current_scope_id(), GLOBAL_SCOPE_ID);
    assert_eq!(int_of(&value_of(&mut interpreter, "a")), 1);
    assert_eq!(interpreter.semantic_analyzer.current_scope_id(), GLOBAL_SCOPE_ID);
    assert!(interpreter.eval("b".to_string()).is_err());
}

#[test]
fn lexical_and_syntactic_errors_are_reported() {
    let mut interpreter = Interpreter::new();
    let error = interpreter.eval("var x = (1)".to_string()).unwrap_err();
    assert!(matches!(&error, EvalError::Lexical(LexError::UnexpectedCharacter('('))));
    assert_eq!(error.description(), "Unexpected character: (");
    let error = interpreter.eval("var x = \"abc".to_string()).unwrap_err();
    assert!(matches!(error, EvalError::Lexical(LexError::UnterminatedText)));
    let error = interpreter.eval("var x 1".to_string()).unwrap_err();
    assert!(matches!(&error, EvalError::Syntactic(Error::ExpectedAssignment(Some(_)))));
    assert_eq!(
        error.description(),
        "Expected an assignment statement ('=') but got Number \"1\""
    );
    let error = interpreter.eval("var x = 1 var y = 2".to_string()).unwrap_err();
    assert!(matches!(error, EvalError::Syntactic(Error::UnexpectedToken(TokenType::NewLine, _))));
    assert!(interpreter.eval("x".to_string()).is_err());
}

#[test]
fn the_integers_of_sixty_four_bits_are_the_numbers() {
    let mut interpreter = Interpreter::new();
    assert_eq!(int_of(&value_of(&mut interpreter, "9223372036854775807")), i64::MAX);
    assert_eq!(int_of(&value_of(&mut interpreter, "0")), 0);
    assert_eq!(int_of(&value_of(&mut interpreter, "007")), 7);
    let error = interpreter.eval("9223372036854775808".to_string()).unwrap_err();
    assert!(matches!(
        &error,
        EvalError::Internal(InterpretError::InvalidNumber(text)) if text == "9223372036854775808"
    ));
    assert_eq!(error.description(), "Invalid integer literal: 9223372036854775808");
    let error = interpreter.eval("var big = 99999999999999999999999".to_string()).unwrap_err();
    assert!(matches!(error, EvalError::Internal(InterpretError::InvalidNumber(_))));
}

#[test]
fn digits_of_other_scripts_are_no_integers() {
    let mut interpreter = Interpreter::new();
    let error = interpreter.eval("\u{0661}\u{0662}".to_string()).unwrap_err();
    assert!(matches!(
        error,
        EvalError::Internal(InterpretError::InvalidNumber(text)) if text == "\u{0661}\u{0662}"
    ));
}

#[test]
fn signed_literals_are_integers() {
    let mut interpreter = at_top_level();
    let tree = SemanticAst::Number(token(TokenType::Number, "-9223372036854775808"));
    assert_eq!(int_of(&interpret(&mut interpreter, tree, vec![1]).unwrap().value.unwrap()), i64::MIN);
    let tree = SemanticAst::Number(token(TokenType::Number, "+15"));
    assert_eq!(int_of(&interpret(&mut interpreter, tree, vec![1]).unwrap().value.unwrap()), 15);
    let tree = SemanticAst::Number(token(TokenType::Number, "-0"));
    assert_eq!(int_of(&interpret(&mut interpreter, tree, vec![1]).unwrap().value.unwrap()), 0);
    for text in ["", "+", "-", "1 ", " 1", "1_0", "--1", "+-1", "1a", "-9223372036854775809"] {
        let tree = SemanticAst::Number(token(TokenType::Number, text));
        let error = interpret(&mut interpreter, tree, vec![1]).unwrap_err();
        assert!(matches!(error, InterpretError::InvalidNumber(found) if found == text));
    }
}

#[test]
fn only_true_and_false_are_truths() {
    let mut interpreter = at_top_level();
    let tree = SemanticAst::Truth(token(TokenType::Truth, "true"));
    assert!(truth_of(&interpret(&mut interpreter, tree, vec![1]).unwrap().value.unwrap()));
    let tree = SemanticAst::Truth(token(TokenType::Truth, "false"));
    assert!(!truth_of(&interpret(&mut interpreter, tree, vec![1]).unwrap().value.unwrap()));
    for text in ["", "True", "yes", "true ", "1"] {
        let tree = SemanticAst::Truth(token(TokenType::Truth, text));
        let error = interpret(&mut interpreter, tree, vec![1]).unwrap_err();
        assert!(matches!(&error, InterpretError::InvalidTruth(found) if found == text));
        assert_eq!(error.description(), format!("Invalid truth literal: {}", text));
    }
}

#[test]
fn a_literal_takes_its_identity_from_the_supply() {
    let mut interpreter = at_top_level();
    let tree = SemanticAst::Text(token(TokenType::Text, "a"));
    let value = interpret(&mut interpreter, tree, vec![77, 78]).unwrap().value.unwrap();
    assert_eq!(value.uuid, 77);
    assert_eq!(text_of(&value), "a");
    assert!(interpreter.value_table.get(77).is_none());
    let tree = SemanticAst::Text(token(TokenType::Text, "a"));
    let error = interpret(&mut interpreter, tree, vec![]).unwrap_err();
    assert!(matches!(&error, InterpretError::OutOfIdentities));
    assert_eq!(error.description(), "The supply of identities is used up");
}

#[test]
fn an_unknown_symbol_has_no_value() {
    let mut interpreter = at_top_level();
    let error = interpret(&mut interpreter, SemanticAst::Variable(1234), vec![]).unwrap_err();
    assert!(matches!(&error, InterpretError::SymbolNotFound(1234)));
    assert_eq!(error.description(), "Symbol not found");
    let error = interpret(&mut interpreter, SemanticAst::Variable(INT_TYPE_ID), vec![]).unwrap_err();
    assert!(matches!(&error, InterpretError::ValueNotFound(INT_TYPE_ID)));
    assert_eq!(error.description(), "Value not found");
    interpreter.bind_symbol_to_value(INT_TYPE_ID, 999);
    let error = interpret(&mut interpreter, SemanticAst::Variable(INT_TYPE_ID), vec![]).unwrap_err();
    assert!(matches!(error, InterpretError::ValueNotFound(INT_TYPE_ID)));
    interpreter.value_table.insert(Value::with_id(ValueVariant::Nothing, 999));
    let value = interpret(&mut interpreter, SemanticAst::Variable(INT_TYPE_ID), vec![]).unwrap().value.unwrap();
    assert_eq!(value.uuid, 999);
    assert!(matches!(value.content, ValueVariant::Nothing));
}

#[test]
fn a_declaration_binds_a_symbol_of_the_current_scope_only() {
    let mut interpreter = at_top_level();
    let literal = Box::new(SemanticAst::Number(token(TokenType::Number, "1")));
    let tree = SemanticAst::Declaration(INT_TYPE_ID, INT_TYPE_ID, literal);
    let error = interpret(&mut interpreter, tree, vec![5]).unwrap_err();
    assert!(matches!(error, InterpretError::SymbolNotFound(INT_TYPE_ID)));
    let literal = Box::new(SemanticAst::Number(token(TokenType::Number, "1")));
    let tree = SemanticAst::Assignment(INT_TYPE_ID, literal);
    assert!(interpret(&mut interpreter, tree, vec![5]).unwrap().value.is_none());
    let value = interpret(&mut interpreter, SemanticAst::Variable(INT_TYPE_ID), vec![]).unwrap().value.unwrap();
    assert_eq!((value.uuid, int_of(&value)), (5, 1));
}

#[test]
fn a_statement_is_no_value() {
    let mut interpreter = at_top_level();
    let block = Box::new(SemanticAst::Block(vec![], REPL_SCOPE_ID));
    let tree = SemanticAst::Declaration(1, 1, block);
    let error = interpret(&mut interpreter, tree, vec![]).unwrap_err();
    assert!(matches!(&error, InterpretError::MissingValue));
    assert_eq!(error.description(), "Semantic analysis error. Should have value");
    interpreter.semantic_analyzer.push_scope(REPL_SCOPE_ID);
    let block = Box::new(SemanticAst::Block(vec![], REPL_SCOPE_ID));
    let body = Box::new(SemanticAst::Block(vec![], REPL_SCOPE_ID));
    let error = interpret(&mut interpreter, SemanticAst::If(block, body), vec![]).unwrap_err();
    assert!(matches!(error, InterpretError::MissingValue));
    interpreter.semantic_analyzer.push_scope(REPL_SCOPE_ID);
    let block = Box::new(SemanticAst::Block(vec![], REPL_SCOPE_ID));
    let error = interpret(&mut interpreter, SemanticAst::FunctionCall(block, vec![]), vec![]).unwrap_err();
    assert!(matches!(error, InterpretError::MissingValue));
}

#[test]
fn debug_print_shows_even_the_absence_of_a_value() {
    let mut interpreter = at_top_level();
    let block = Box::new(SemanticAst::Block(vec![], REPL_SCOPE_ID));
    let result = interpret(&mut interpreter, SemanticAst::DebugPrint(block), vec![]).unwrap();
    assert!(result.value.is_none());
    let effects = interpreter.take_effects();
    assert_eq!(effects.len(), 1);
    assert!(matches!(effects[0], Effect::DebugPrint(None)));
}

#[test]
fn only_function_values_are_called() {
    let mut interpreter = at_top_level();
    let callee = Box::new(SemanticAst::Number(token(TokenType::Number, "1")));
    let error = interpret(&mut interpreter, SemanticAst::FunctionCall(callee, vec![]), vec![1]).unwrap_err();
    assert!(matches!(&error, InterpretError::NotCallable));
    assert_eq!(error.description(), "Value is not a function");
}

#[test]
fn a_block_runs_in_its_scope_and_goes_back_to_the_parent() {
    let mut interpreter = Interpreter::new();
    let tree = SemanticAst::Block(vec![], REPL_SCOPE_ID);
    assert!(interpret(&mut interpreter, tree, vec![]).unwrap().value.is_none());
    assert_eq!(interpreter.semantic_analyzer.current_scope_id(), GLOBAL_SCOPE_ID);
    let tree = SemanticAst::Block(vec![], GLOBAL_SCOPE_ID);
    let error = interpret(&mut interpreter, tree, vec![]).unwrap_err();
    assert!(matches!(&error, InterpretError::RootScopePopped));
    assert_eq!(error.description(), "The root scope has no parent to go back to");
    let tree = SemanticAst::Block(vec![], 4242);
    let error = interpret(&mut interpreter, tree, vec![]).unwrap_err();
    assert!(matches!(&error, InterpretError::NoCurrentScope));
    assert_eq!(error.description(), "There should always be a scope");
    assert_eq!(interpreter.semantic_analyzer.current_scope_id(), 4242);
    let error = interpret(&mut interpreter, SemanticAst::Variable(1), vec![]).unwrap_err();
    assert!(matches!(error, InterpretError::NoCurrentScope));
}

#[test]
fn effects_are_handed_over_once_and_in_order() {
    let mut interpreter = Interpreter::new();
    interpreter.eval(": 1; : \"two\"; : true".to_string()).unwrap();
    let effects = interpreter.take_effects();
    assert_eq!(effects.len(), 3);
    assert!(matches!(&effects[0], Effect::DebugPrint(Some(value)) if int_of(value) == 1));
    assert!(matches!(&effects[1], Effect::DebugPrint(Some(value)) if text_of(value) == "two"));
    assert!(matches!(&effects[2], Effect::DebugPrint(Some(value)) if truth_of(value)));
    assert!(interpreter.take_effects().is_empty());
}

#[test]
fn the_needs_of_a_program_are_counted() {
    let statements = parse_source("var x = 1\n{ var y = \"a\"\n : y }\nif true x".to_string()).unwrap();
    let counts: Vec<usize> = statements.iter().map(|node| count_needs(node)).collect();
    assert_eq!(counts, vec![2, 3, 1]);
    assert!(parse_source("".to_string()).unwrap().is_empty());
    assert!(matches!(parse_source("#".to_string()).unwrap_err(), EvalError::Lexical(_)));
    assert!(matches!(parse_source("var".to_string()).unwrap_err(), EvalError::Syntactic(_)));
}

#[test]
fn a_program_runs_with_the_identities_it_is_given() {
    let mut interpreter = Interpreter::new();
    let statements = parse_source("var x = 1; var y = 2; y".to_string()).unwrap();
    let mut ids = Identities::new(vec![10, 11, 12]);
    let error = interpreter.run(&statements, &mut ids).unwrap_err();
    assert!(matches!(error, EvalError::Internal(InterpretError::OutOfIdentities)));
    let mut ids = Identities::new(vec![10, 11, 12, 13, 14]);
    let error = interpreter.run(&statements, &mut ids).unwrap_err();
    assert!(matches!(error, EvalError::Semantic(SemanticError::DuplicateDeclaration(_))));
    let statements = parse_source("y = 3; y".to_string()).unwrap();
    let value = interpreter.run(&statements, &mut ids).unwrap().value.unwrap();
    assert_eq!((value.uuid, int_of(&value)), (10, 3));
}

#[test]
fn a_value_keeps_its_payload() {
    let value = Value::new(ValueVariant::Primitive(PrimitiveValue::Text("a".to_string())));
    assert_eq!(text_of(&value), "a");
    let other = Value::new(ValueVariant::Primitive(PrimitiveValue::Dec(1.5f64.to_bits())));
    assert_ne!(value.uuid, other.uuid);
    assert!(matches!(other.content, ValueVariant::Primitive(PrimitiveValue::Dec(bits)) if f64::from_bits(bits) == 1.5));
    let copy = value.clone();
    assert_eq!(copy.uuid, value.uuid);
    assert_eq!(text_of(&copy), "a");
    let function = Value::with_id(ValueVariant::Function(FunctionValue::Native(3)), 8);
    assert_eq!(function.uuid, 8);
    assert!(matches!(function.clone().content, ValueVariant::Function(FunctionValue::Native(3))));
}

#[test]
fn the_table_stores_values_by_identity() {
    let mut table = ValueTable::new();
    assert!(table.get(1).is_none());
    table.insert(Value::with_id(ValueVariant::Primitive(PrimitiveValue::Int(5)), 1));
    table.insert(Value::with_id(ValueVariant::Primitive(PrimitiveValue::Bool(true)), 2));
    assert_eq!(int_of(table.get(1).unwrap()), 5);
    assert!(truth_of(table.get(2).unwrap()));
    table.insert(Value::with_id(ValueVariant::Primitive(PrimitiveValue::Int(6)), 1));
    assert_eq!(int_of(table.get(1).unwrap()), 6);
    assert!(table.get(3).is_none());
}

#[test]
fn a_tree_is_evaluated_with_fresh_identities() {
    let mut interpreter = at_top_level();
    let tree = SemanticAst::If(
        Box::new(SemanticAst::Truth(token(TokenType::Truth, "true"))),
        Box::new(SemanticAst::DebugPrint(Box::new(SemanticAst::Number(token(TokenType::Number, "4"))))),
    );
    assert_eq!(count_values(&tree), 2);
    assert!(interpreter.interpret(tree).unwrap().value.is_none());
    let effects = interpreter.take_effects();
    assert!(matches!(&effects[0], Effect::DebugPrint(Some(value)) if int_of(value) == 4));
    let first = interpreter.interpret(SemanticAst::Text(token(TokenType::Text, "a"))).unwrap().value.unwrap();
    let second = interpreter.interpret(SemanticAst::Text(token(TokenType::Text, "a"))).unwrap().value.unwrap();
    assert_ne!(first.uuid, second.uuid);
    assert_eq!(text_of(&first), "a");
}

#[test]
fn the_literals_of_a_tree_are_counted() {
    assert_eq!(count_values(&SemanticAst::Variable(1)), 0);
    assert_eq!(count_values(&SemanticAst::Block(vec![], 1)), 0);
    let literal = || SemanticAst::Number(token(TokenType::Number, "1"));
    let call = SemanticAst::FunctionCall(
        Box::new(literal()),
        vec![Box::new(literal()), Box::new(SemanticAst::Variable(1)), Box::new(literal())],
    );
    assert_eq!(count_values(&call), 3);
    let block = SemanticAst::Block(
        vec![
            SemanticAst::Declaration(1, 1, Box::new(literal())),
            SemanticAst::Assignment(1, Box::new(literal())),
            call,
        ],
        7,
    );
    assert_eq!(count_values(&block), 5);
}
