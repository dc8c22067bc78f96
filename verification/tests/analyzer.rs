use odo::base::lexer::{Lexer, Token, TokenType};
use odo::base::parser::{Ast, Parser};
use odo::base::semantic_analyzer::{
    count_identities, FunctionTypeSymbol, NativeFunctionSymbol, SemanticAnalyzer, SemanticAst,
    SemanticError, Symbol, SymbolTable, SymbolVariant, VariableSymbol, DEC_TYPE_ID,
    GLOBAL_SCOPE_ID, INT_TYPE_ID, REPL_SCOPE_ID, TEXT_TYPE_ID, TRUTH_TYPE_ID,
};
use odo::identity::Identities;

fn statement(input: &str) -> Box<Ast> {
    let tokens = Lexer::new(input.to_string()).collect().unwrap();
    Parser::new(tokens).parse_statement().unwrap()
}

fn name(value: &str) -> Token {
    Token::new(TokenType::Name, value.to_string(), 1, 0)
}

fn number(value: &str) -> Token {
    Token::new(TokenType::Number, value.to_string(), 1, 0)
}

fn at_top_level() -> SemanticAnalyzer {
    let mut analyzer = SemanticAnalyzer::new();
    analyzer.push_scope(REPL_SCOPE_ID);
    analyzer
}

fn variable(name: &str, symbol_id: u128, type_id: u128) -> Symbol {
    Symbol {
        name: name.to_string(),
        symbol_id,
        variant: SymbolVariant::Variable(VariableSymbol { type_id }),
    }
}

#[test]
fn a_new_analyzer_knows_the_primitive_types() {
    let analyzer = SemanticAnalyzer::new();
    assert_eq!(analyzer.current_scope_id(), GLOBAL_SCOPE_ID);
    assert_eq!(analyzer.global_scope_id(), GLOBAL_SCOPE_ID);
    assert_eq!(analyzer.repl_scope_id(), REPL_SCOPE_ID);
    let global = analyzer.global_scope().unwrap();
    assert_eq!(global.table_id(), GLOBAL_SCOPE_ID);
    assert_eq!(global.parent(), None);
    assert_eq!(global.lookup("int".to_string()).unwrap().symbol_id, INT_TYPE_ID);
    assert_eq!(global.lookup("dec".to_string()).unwrap().symbol_id, DEC_TYPE_ID);
    assert_eq!(global.lookup("string".to_string()).unwrap().symbol_id, TEXT_TYPE_ID);
    assert_eq!(global.lookup("truth".to_string()).unwrap().symbol_id, TRUTH_TYPE_ID);
    assert!(matches!(global.lookup_id(INT_TYPE_ID).unwrap().variant, SymbolVariant::Primitive));
    assert!(global.lookup("x".to_string()).is_none());
    let top = analyzer.scope(REPL_SCOPE_ID).unwrap();
    assert_eq!(top.parent(), Some(GLOBAL_SCOPE_ID));
    assert!(top.lookup("int".to_string()).is_none());
    assert!(analyzer.scope(77).is_none());
}

#[test]
fn literals_have_the_type_of_their_kind() {
    let mut analyzer = at_top_level();
    let result = analyzer.analyze(statement("1")).unwrap();
    assert_eq!(result.type_id, Some(INT_TYPE_ID));
    assert!(matches!(*result.node, SemanticAst::Number(ref token) if token.value == "1"));
    let result = analyzer.analyze(statement("true")).unwrap();
    assert_eq!(result.type_id, Some(TRUTH_TYPE_ID));
    assert!(matches!(*result.node, SemanticAst::Truth(_)));
    let result = analyzer.analyze_node(statement("\"a\"")).unwrap();
    assert_eq!(result.type_id, Some(TEXT_TYPE_ID));
    assert!(matches!(*result.node, SemanticAst::Text(ref token) if token.value == "a"));
}

#[test]
fn a_declaration_makes_a_variable_of_the_initializer_type() {
    let mut analyzer = at_top_level();
    let mut ids = Identities::new(vec![100, 101]);
    let result = analyzer.analyze_with(&statement("var x = \"a\""), &mut ids).unwrap();
    assert_eq!(result.type_id, None);
    assert!(matches!(*result.node, SemanticAst::Declaration(100, 100, _)));
    assert_eq!(ids.remaining(), 1);
    let top = analyzer.current_scope().unwrap();
    let symbol = top.lookup("x".to_string()).unwrap();
    assert_eq!(symbol.symbol_id, 100);
    assert!(matches!(symbol.variant, SymbolVariant::Variable(VariableSymbol { type_id: TEXT_TYPE_ID })));
    let result = analyzer.analyze_with(&statement("x"), &mut ids).unwrap();
    assert_eq!(result.type_id, Some(TEXT_TYPE_ID));
    assert!(matches!(*result.node, SemanticAst::Variable(100)));
    assert_eq!(ids.remaining(), 1);
}

#[test]
fn an_unknown_name_is_rejected() {
    let mut analyzer = at_top_level();
    let error = analyzer.analyze(statement("x")).unwrap_err();
    assert!(matches!(&error, SemanticError::UnknownVariable(name) if name == "x"));
    assert_eq!(error.description(), "Variable x not found");
    let error = analyzer.analyze(statement("var y = x")).unwrap_err();
    assert!(matches!(error, SemanticError::UnknownVariable(name) if name == "x"));
    assert!(analyzer.current_scope().unwrap().lookup("y".to_string()).is_none());
}

#[test]
fn the_name_of_a_type_is_no_value() {
    let mut analyzer = at_top_level();
    let error = analyzer.analyze(statement("int")).unwrap_err();
    assert!(matches!(&error, SemanticError::NotAValue(name) if name == "int"));
    assert_eq!(error.description(), "Symbol int does not contain a value");
}

#[test]
fn a_second_declaration_in_the_same_scope_is_rejected() {
    let mut analyzer = at_top_level();
    analyzer.analyze(statement("var x = 1")).unwrap();
    let error = analyzer.analyze(statement("var x = 2")).unwrap_err();
    assert!(matches!(&error, SemanticError::DuplicateDeclaration(name) if name == "x"));
    assert_eq!(error.description(), "Variable called x already exists.");
    let error = analyzer.analyze(statement("var x = \"a\"")).unwrap_err();
    assert!(matches!(error, SemanticError::DuplicateDeclaration(_)));
}

#[test]
fn a_block_may_declare_an_outer_name_again() {
    let mut analyzer = at_top_level();
    let mut ids = Identities::new(vec![100, 200, 101, 102]);
    analyzer.analyze_with(&statement("var x = 1"), &mut ids).unwrap();
    let result = analyzer.analyze_with(&statement("{ var x = \"a\"\n x }"), &mut ids).unwrap();
    assert_eq!(result.type_id, None);
    match *result.node {
        SemanticAst::Block(ref nodes, scope_id) => {
            assert_eq!(scope_id, 200);
            assert_eq!(nodes.len(), 2);
            assert!(matches!(nodes[0], SemanticAst::Declaration(101, 101, _)));
            assert!(matches!(nodes[1], SemanticAst::Variable(101)));
        }
        ref other => panic!("unexpected node {:?}", other),
    }
    assert_eq!(analyzer.current_scope_id(), REPL_SCOPE_ID);
    let block = analyzer.scope(200).unwrap();
    assert_eq!(block.parent(), Some(REPL_SCOPE_ID));
    assert_eq!(block.lookup("x".to_string()).unwrap().symbol_id, 101);
    let result = analyzer.analyze_with(&statement("x"), &mut ids).unwrap();
    assert!(matches!(*result.node, SemanticAst::Variable(100)));
    assert_eq!(result.type_id, Some(INT_TYPE_ID));
}

#[test]
fn a_name_declared_in_a_block_ends_with_the_block() {
    let mut analyzer = at_top_level();
    analyzer.analyze(statement("{ var z = 5 }")).unwrap();
    let error = analyzer.analyze(statement("z")).unwrap_err();
    assert!(matches!(error, SemanticError::UnknownVariable(name) if name == "z"));
}

#[test]
fn a_block_sees_and_assigns_outer_variables() {
    let mut analyzer = at_top_level();
    let mut ids = Identities::new(vec![100, 200]);
    analyzer.analyze_with(&statement("var x = 1"), &mut ids).unwrap();
    let result = analyzer.analyze_with(&statement("{ x = 2 }"), &mut ids).unwrap();
    match *result.node {
        SemanticAst::Block(ref nodes, 200) => {
            assert!(matches!(nodes[0], SemanticAst::Assignment(100, _)))
        }
        ref other => panic!("unexpected node {:?}", other),
    }
}

#[test]
fn an_assignment_needs_a_value_of_the_declared_type() {
    let mut analyzer = at_top_level();
    analyzer.analyze(statement("var x = 1")).unwrap();
    let error = analyzer.analyze(statement("x = \"a\"")).unwrap_err();
    assert!(matches!(
        &error,
        SemanticError::TypeMismatch(expected, got) if expected == "int" && got == "string"
    ));
    assert_eq!(
        error.description(),
        "Type mismatch: Expected type \"int\" but got type \"string\""
    );
    let error = analyzer.analyze(statement("x = true")).unwrap_err();
    assert!(matches!(
        error,
        SemanticError::TypeMismatch(expected, got) if expected == "int" && got == "truth"
    ));
    let result = analyzer.analyze(statement("x = 2")).unwrap();
    assert_eq!(result.type_id, None);
    assert!(matches!(*result.node, SemanticAst::Assignment(_, _)));
}

#[test]
fn an_assignment_needs_a_variable() {
    let mut analyzer = at_top_level();
    let error = analyzer.analyze(statement("y = 1")).unwrap_err();
    assert!(matches!(error, SemanticError::UnknownVariable(name) if name == "y"));
    let error = analyzer.analyze(statement("1 = 2")).unwrap_err();
    assert!(matches!(&error, SemanticError::NotAVariable));
    assert_eq!(error.description(), "Symbol is not a variable");
    let error = analyzer.analyze(statement("int = 2")).unwrap_err();
    assert!(matches!(error, SemanticError::NotAVariable));
}

#[test]
fn an_assignment_has_no_value() {
    let mut analyzer = at_top_level();
    analyzer.analyze(statement("var a = 1")).unwrap();
    analyzer.analyze(statement("var b = 2")).unwrap();
    let error = analyzer.analyze(statement("a = b = 3")).unwrap_err();
    assert!(matches!(&error, SemanticError::MissingValue));
    assert_eq!(error.description(), "Expected a valid expression (Must return value)");
    let error = analyzer.analyze(statement("var c = a = 3")).unwrap_err();
    assert!(matches!(error, SemanticError::MissingValue));
    let error = analyzer.analyze(statement(": a = 3")).unwrap_err();
    assert!(matches!(error, SemanticError::MissingValue));
    let error = analyzer.analyze(statement("if a = 3 a")).unwrap_err();
    assert!(matches!(error, SemanticError::MissingValue));
}

#[test]
fn a_condition_must_be_a_truth() {
    let mut analyzer = at_top_level();
    let error = analyzer.analyze(statement("if 1 { var z = 5 }")).unwrap_err();
    assert!(matches!(&error, SemanticError::ConditionNotTruth));
    assert_eq!(error.description(), "If condition must be a truth");
    let result = analyzer.analyze(statement("if false { var z = 5 }")).unwrap();
    assert_eq!(result.type_id, None);
    assert!(matches!(*result.node, SemanticAst::If(_, _)));
}

#[test]
fn the_body_of_a_conditional_is_analyzed_before_the_condition_is_checked() {
    let mut analyzer = at_top_level();
    let error = analyzer.analyze(statement("if 1 var z = 5")).unwrap_err();
    assert!(matches!(error, SemanticError::ConditionNotTruth));
    assert!(analyzer.current_scope().unwrap().lookup("z".to_string()).is_some());
    let error = analyzer.analyze(statement("if 1 y")).unwrap_err();
    assert!(matches!(error, SemanticError::UnknownVariable(_)));
}

#[test]
fn debug_print_needs_a_value() {
    let mut analyzer = at_top_level();
    let result = analyzer.analyze(statement(": 1")).unwrap();
    assert_eq!(result.type_id, None);
    assert!(matches!(*result.node, SemanticAst::DebugPrint(_)));
    let print_block = Box::new(Ast::DebugPrint(Box::new(Ast::Block(vec![]))));
    assert!(matches!(analyzer.analyze(print_block).unwrap_err(), SemanticError::MissingValue));
}

fn with_function(analyzer: &mut SemanticAnalyzer) {
    let function_type = Symbol {
        name: "<int,string:truth>".to_string(),
        symbol_id: 50,
        variant: SymbolVariant::FunctionType(FunctionTypeSymbol::new(
            Some(TRUTH_TYPE_ID),
            vec![INT_TYPE_ID, TEXT_TYPE_ID],
        )),
    };
    let function = Symbol {
        name: "f".to_string(),
        symbol_id: 51,
        variant: SymbolVariant::NativeFunction(NativeFunctionSymbol::new(50)),
    };
    analyzer.insert_into(GLOBAL_SCOPE_ID, function_type).unwrap();
    analyzer.insert_into(REPL_SCOPE_ID, function).unwrap();
}

fn call(callee: Ast, arguments: Vec<Ast>) -> Box<Ast> {
    Box::new(Ast::FunctionCall(
        Box::new(callee),
        arguments.into_iter().map(Box::new).collect(),
    ))
}

fn text(value: &str) -> Ast {
    Ast::Text(Token::new(TokenType::Text, value.to_string(), 1, 0))
}

#[test]
fn a_call_has_the_return_type_of_the_function() {
    let mut analyzer = at_top_level();
    with_function(&mut analyzer);
    let tree = call(Ast::Variable(name("f")), vec![Ast::Number(number("1")), text("a")]);
    let result = analyzer.analyze(tree).unwrap();
    assert_eq!(result.type_id, Some(TRUTH_TYPE_ID));
    match *result.node {
        SemanticAst::FunctionCall(ref callee, ref arguments) => {
            assert!(matches!(**callee, SemanticAst::Variable(51)));
            assert_eq!(arguments.len(), 2);
            assert!(matches!(*arguments[0], SemanticAst::Number(_)));
            assert!(matches!(*arguments[1], SemanticAst::Text(_)));
        }
        ref other => panic!("unexpected node {:?}", other),
    }
}

#[test]
fn a_call_needs_the_right_number_of_arguments() {
    let mut analyzer = at_top_level();
    with_function(&mut analyzer);
    let tree = call(Ast::Variable(name("f")), vec![Ast::Number(number("1"))]);
    let error = analyzer.analyze(tree).unwrap_err();
    assert!(matches!(&error, SemanticError::WrongArgumentCount));
    assert_eq!(error.description(), "Incorrect number of arguments");
    let tree = call(Ast::Variable(name("f")), vec![]);
    assert!(matches!(analyzer.analyze(tree).unwrap_err(), SemanticError::WrongArgumentCount));
}

#[test]
fn a_call_needs_arguments_of_the_right_types() {
    let mut analyzer = at_top_level();
    with_function(&mut analyzer);
    let tree = call(Ast::Variable(name("f")), vec![Ast::Number(number("1")), Ast::Number(number("2"))]);
    let error = analyzer.analyze(tree).unwrap_err();
    assert!(matches!(
        error,
        SemanticError::TypeMismatch(expected, got) if expected == "string" && got == "int"
    ));
    let tree = call(Ast::Variable(name("f")), vec![text("a"), text("b")]);
    let error = analyzer.analyze(tree).unwrap_err();
    assert!(matches!(
        error,
        SemanticError::TypeMismatch(expected, got) if expected == "int" && got == "string"
    ));
    let tree = call(Ast::Variable(name("f")), vec![Ast::Number(number("1")), Ast::Block(vec![])]);
    assert!(matches!(analyzer.analyze(tree).unwrap_err(), SemanticError::MissingValue));
}

#[test]
fn only_functions_are_called() {
    let mut analyzer = at_top_level();
    analyzer.analyze(statement("var x = 1")).unwrap();
    let error = analyzer.analyze(call(Ast::Variable(name("x")), vec![])).unwrap_err();
    assert!(matches!(&error, SemanticError::NotAFunction));
    assert_eq!(error.description(), "Symbol is not a function");
    let error = analyzer.analyze(call(Ast::Number(number("1")), vec![])).unwrap_err();
    assert!(matches!(error, SemanticError::NotAFunction));
    let error = analyzer.analyze(call(Ast::Block(vec![]), vec![])).unwrap_err();
    assert!(matches!(error, SemanticError::MissingValue));
    analyzer.insert_into(REPL_SCOPE_ID, variable("y", 60, 61)).unwrap();
    let error = analyzer.analyze(call(Ast::Variable(name("y")), vec![])).unwrap_err();
    assert!(matches!(error, SemanticError::NotAFunction));
}

#[test]
fn an_unknown_type_goes_by_a_placeholder() {
    let mut analyzer = at_top_level();
    analyzer.insert_into(REPL_SCOPE_ID, variable("y", 60, 61)).unwrap();
    let error = analyzer.analyze(statement("y = 1")).unwrap_err();
    assert!(matches!(
        error,
        SemanticError::TypeMismatch(expected, got) if expected == "<unknown>" && got == "int"
    ));
    assert_eq!(analyzer.name_of_type(61), "<unknown>");
    assert_eq!(analyzer.name_of_type(TRUTH_TYPE_ID), "truth");
}

#[test]
fn scopes_are_entered_and_left() {
    let mut analyzer = SemanticAnalyzer::new();
    let error = analyzer.pop_scope().unwrap_err();
    assert!(matches!(&error, SemanticError::RootScopePopped));
    assert_eq!(error.description(), "The root scope has no parent to go back to");
    assert_eq!(analyzer.current_scope_id(), GLOBAL_SCOPE_ID);
    analyzer.push_scope(REPL_SCOPE_ID);
    assert_eq!(analyzer.current_scope().unwrap().table_id(), REPL_SCOPE_ID);
    analyzer.pop_scope().unwrap();
    assert_eq!(analyzer.current_scope_id(), GLOBAL_SCOPE_ID);
    analyzer.push_scope(999);
    assert_eq!(analyzer.current_scope_id(), 999);
    let error = analyzer.current_scope().err().unwrap();
    assert!(matches!(&error, SemanticError::NoCurrentScope));
    assert_eq!(error.description(), "There should always be a scope");
    assert!(matches!(analyzer.pop_scope().unwrap_err(), SemanticError::NoCurrentScope));
    assert_eq!(analyzer.current_scope_id(), 999);
}

#[test]
fn nothing_is_analyzed_outside_the_forest() {
    let mut analyzer = SemanticAnalyzer::new();
    analyzer.push_scope(999);
    assert!(matches!(analyzer.analyze(statement("x")).unwrap_err(), SemanticError::NoCurrentScope));
    assert!(matches!(
        analyzer.analyze(statement("var x = 1")).unwrap_err(),
        SemanticError::NoCurrentScope
    ));
    assert!(matches!(analyzer.analyze(statement("x = 1")).unwrap_err(), SemanticError::NoCurrentScope));
    assert!(matches!(analyzer.analyze(statement("{ }")).unwrap_err(), SemanticError::NoCurrentScope));
    assert!(matches!(
        analyzer.insert_into(999, variable("y", 60, INT_TYPE_ID)).unwrap_err(),
        SemanticError::NoCurrentScope
    ));
    assert_eq!(analyzer.analyze(statement("1")).unwrap().type_id, Some(INT_TYPE_ID));
}

#[test]
fn a_scope_needs_an_identity_of_its_own() {
    let mut analyzer = at_top_level();
    let mut ids = Identities::new(vec![GLOBAL_SCOPE_ID, 300]);
    let error = analyzer.analyze_with(&statement("{ }"), &mut ids).unwrap_err();
    assert!(matches!(&error, SemanticError::IdentityInUse));
    assert_eq!(error.description(), "The identity of a new scope is already in use");
    assert_eq!(ids.remaining(), 1);
    assert_eq!(analyzer.current_scope_id(), REPL_SCOPE_ID);
    analyzer.analyze_with(&statement("{ }"), &mut ids).unwrap();
    assert_eq!(analyzer.scope(300).unwrap().parent(), Some(REPL_SCOPE_ID));
}

#[test]
fn analysis_stops_when_the_identities_run_out() {
    let mut analyzer = at_top_level();
    let mut ids = Identities::new(vec![]);
    let error = analyzer.analyze_with(&statement("var x = 1"), &mut ids).unwrap_err();
    assert!(matches!(&error, SemanticError::OutOfIdentities));
    assert_eq!(error.description(), "The supply of identities is used up");
    assert!(matches!(
        analyzer.analyze_with(&statement("{ }"), &mut ids).unwrap_err(),
        SemanticError::OutOfIdentities
    ));
    let mut ids = Identities::new(vec![300]);
    let error = analyzer.analyze_with(&statement("{ var x = 1 }"), &mut ids).unwrap_err();
    assert!(matches!(error, SemanticError::OutOfIdentities));
    assert_eq!(analyzer.current_scope_id(), 300);
}

#[test]
fn an_error_in_a_block_leaves_the_analyzer_in_the_block() {
    let mut analyzer = at_top_level();
    let mut ids = Identities::new(vec![300, 301]);
    let error = analyzer.analyze_with(&statement("{ var x = 1\n y }"), &mut ids).unwrap_err();
    assert!(matches!(error, SemanticError::UnknownVariable(_)));
    assert_eq!(analyzer.current_scope_id(), 300);
    assert_eq!(analyzer.current_scope().unwrap().lookup("x".to_string()).unwrap().symbol_id, 301);
}

#[test]
fn blocks_and_declarations_are_counted() {
    assert_eq!(count_identities(&statement("1")), 0);
    assert_eq!(count_identities(&statement("x = 1")), 0);
    assert_eq!(count_identities(&statement("var x = 1")), 1);
    assert_eq!(count_identities(&statement("{ }")), 1);
    assert_eq!(count_identities(&statement("{ var x = 1\n { var y = 2 }\n : x }")), 4);
    assert_eq!(count_identities(&statement("if true { var z = 5 }")), 2);
    let tree = call(Ast::Variable(name("f")), vec![Ast::Block(vec![]), Ast::Block(vec![])]);
    assert_eq!(count_identities(&tree), 2);
}

#[test]
fn a_table_holds_symbols_by_identity() {
    let mut table = SymbolTable::with_id("t".to_string(), 9);
    assert_eq!(table.table_id(), 9);
    assert_eq!(table.parent(), None);
    table.insert(variable("a", 1, INT_TYPE_ID));
    table.insert(variable("b", 2, INT_TYPE_ID));
    table.insert(variable("a", 3, TEXT_TYPE_ID));
    assert_eq!(table.lookup("a".to_string()).unwrap().symbol_id, 1);
    assert_eq!(table.lookup("b".to_string()).unwrap().symbol_id, 2);
    assert_eq!(table.lookup_id(3).unwrap().name, "a");
    assert!(table.lookup("c".to_string()).is_none());
    assert!(table.lookup_id(4).is_none());
    table.insert(variable("c", 1, TRUTH_TYPE_ID));
    assert_eq!(table.lookup_id(1).unwrap().name, "c");
    assert_eq!(table.lookup("a".to_string()).unwrap().symbol_id, 3);
    assert_eq!(table.lookup("c".to_string()).unwrap().symbol_id, 1);
}

#[test]
fn fresh_tables_and_symbols_differ() {
    let first = SymbolTable::new("a".to_string());
    let second = SymbolTable::new("a".to_string());
    assert_ne!(first.table_id(), second.table_id());
    assert_eq!(first.parent(), None);
    assert!(first.lookup("a".to_string()).is_none());
    let one = Symbol::new("s".to_string(), SymbolVariant::Primitive);
    let other = Symbol::new("s".to_string(), SymbolVariant::Primitive);
    assert_ne!(one.symbol_id, other.symbol_id);
    assert_eq!(one.name, "s");
    assert!(matches!(other.variant, SymbolVariant::Primitive));
    let copy = one.clone();
    assert_eq!(copy.symbol_id, one.symbol_id);
    assert_eq!(copy.name, one.name);
}

#[test]
fn symbols_are_found_from_a_scope_outwards() {
    let mut analyzer = at_top_level();
    let mut ids = Identities::new(vec![100, 200, 101]);
    analyzer.analyze_with(&statement("var x = 1"), &mut ids).unwrap();
    analyzer.analyze_with(&statement("{ var y = 2 }"), &mut ids).unwrap();
    let block = analyzer.scope(200).unwrap();
    assert_eq!(block.symbol_from_id(101, &analyzer).unwrap().name, "y");
    assert_eq!(block.symbol_from_id(100, &analyzer).unwrap().name, "x");
    assert_eq!(block.symbol_from_id(INT_TYPE_ID, &analyzer).unwrap().name, "int");
    assert!(block.symbol_from_id(12345, &analyzer).is_none());
    let top = analyzer.scope(REPL_SCOPE_ID).unwrap();
    assert!(top.symbol_from_id(101, &analyzer).is_none());
    let found = block.symbol_from_node(&Ast::Variable(name("x")), &analyzer).unwrap();
    assert_eq!(found.unwrap().symbol_id, 100);
    let found = top.symbol_from_node(&Ast::Variable(name("y")), &analyzer).unwrap();
    assert!(found.is_none());
    let error = top.symbol_from_node(&Ast::Number(number("1")), &analyzer).unwrap_err();
    assert!(matches!(error, SemanticError::NotAVariable));
    assert_eq!(block.parent_scope(&analyzer).unwrap().table_id(), REPL_SCOPE_ID);
    assert_eq!(top.parent_scope(&analyzer).unwrap().table_id(), GLOBAL_SCOPE_ID);
    assert!(analyzer.global_scope().unwrap().parent_scope(&analyzer).is_none());
    assert_eq!(block.name_of_type(INT_TYPE_ID, &analyzer).unwrap(), "int");
    assert_eq!(block.name_of_type(100, &analyzer).unwrap(), "x");
    assert!(top.name_of_type(101, &analyzer).is_none());
    assert_eq!(analyzer.resolve_name_from(200, &"x".to_string()).unwrap().symbol_id, 100);
    assert_eq!(analyzer.resolve_id_from(200, 100).unwrap().name, "x");
    assert!(analyzer.resolve_id_from(REPL_SCOPE_ID, 101).is_none());
    assert!(analyzer.resolve_name_from(4242, &"x".to_string()).is_none());
}

#[test]
fn a_reference_is_resolved_in_the_current_scope() {
    let mut analyzer = at_top_level();
    let mut ids = Identities::new(vec![100]);
    analyzer.analyze_with(&statement("var x = 1"), &mut ids).unwrap();
    let found = analyzer.symbol_from_node(&Ast::Variable(name("x"))).unwrap();
    assert_eq!(found.unwrap().symbol_id, 100);
    let found = analyzer.symbol_from_node(&Ast::Variable(name("truth"))).unwrap();
    assert_eq!(found.unwrap().symbol_id, TRUTH_TYPE_ID);
    assert!(analyzer.symbol_from_node(&Ast::Variable(name("y"))).unwrap().is_none());
    let error = analyzer.symbol_from_node(&Ast::Number(number("1"))).unwrap_err();
    assert!(matches!(error, SemanticError::NotAVariable));
    analyzer.pop_scope().unwrap();
    assert!(analyzer.symbol_from_node(&Ast::Variable(name("x"))).unwrap().is_none());
    analyzer.push_scope(4242);
    let error = analyzer.symbol_from_node(&Ast::Variable(name("x"))).unwrap_err();
    assert!(matches!(error, SemanticError::NoCurrentScope));
}

#[test]
fn function_types_are_named_by_their_structure() {
    let analyzer = SemanticAnalyzer::new();
    assert_eq!(FunctionTypeSymbol::construct_type_name(None, vec![], &analyzer), "<:>");
    assert_eq!(
        FunctionTypeSymbol::construct_type_name(None, vec![INT_TYPE_ID, TEXT_TYPE_ID], &analyzer),
        "<int,string:>"
    );
    assert_eq!(
        FunctionTypeSymbol::construct_type_name(Some(TRUTH_TYPE_ID), vec![DEC_TYPE_ID], &analyzer),
        "<dec:truth>"
    );
    assert_eq!(
        FunctionTypeSymbol::construct_type_name(Some(INT_TYPE_ID), vec![], &analyzer),
        "<:int>"
    );
    assert_eq!(
        FunctionTypeSymbol::construct_type_name(Some(77), vec![INT_TYPE_ID, 78, 79], &analyzer),
        "<int,<unknown>,<unknown>:<unknown>>"
    );
    let function = FunctionTypeSymbol::new(Some(1), vec![2, 3]);
    let copy = function.clone();
    assert_eq!(copy.return_id, Some(1));
    assert_eq!(copy.argument_ids, vec![2, 3]);
}
