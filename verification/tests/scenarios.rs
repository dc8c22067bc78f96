use odo::exec::interpreter::{Effect, EvalError, Interpreter};
use odo::exec::value::{PrimitiveValue, ValueVariant};
use odo::base::semantic_analyzer::SemanticError;

#[test]
fn declares_two_variables_and_prints_the_second() {
    let mut interpreter = Interpreter::new();
    let result = interpreter.eval("var x = 1\nvar y = x\n:y".to_string()).unwrap();
    assert!(result.value.is_none());
    let effects = interpreter.take_effects();
    assert_eq!(effects.len(), 1);
    match &effects[0] {
        Effect::DebugPrint(Some(value)) => {
            assert!(matches!(value.content, ValueVariant::Primitive(PrimitiveValue::Int(1))));
        }
        other => panic!("unexpected effect {:?}", other),
    }
    let x = interpreter.eval("x".to_string()).unwrap().value.unwrap();
    let y = interpreter.eval("y".to_string()).unwrap().value.unwrap();
    assert!(matches!(x.content, ValueVariant::Primitive(PrimitiveValue::Int(1))));
    assert_eq!(x.uuid, y.uuid);
}

#[test]
fn a_name_declared_in_a_block_is_unknown_outside() {
    let mut interpreter = Interpreter::new();
    let result = interpreter.eval("if true { var z = 5 }".to_string());
    assert!(result.is_ok());
    match interpreter.eval("z".to_string()) {
        Err(EvalError::Semantic(SemanticError::UnknownVariable(name))) => assert_eq!(name, "z"),
        other => panic!("unexpected result {:?}", other.map(|r| r.value)),
    }
}
