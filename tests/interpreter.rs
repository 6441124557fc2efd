use clarity::callstack::CallStack;
use clarity::interpreter::{
    bind_definition, eval_step, finish_call, lookup_variable, ContractContext, DefineResult, EvalError, EvalStep,
    LocalContext, RuntimeErrorType, VariableSource,
};
use clarity::names::ClarityName;
use clarity::parser::parse;
use clarity::sugar::expand_all;
use clarity::types::{QualifiedContractIdentifier, StandardPrincipalData, TypeSignature, Value};

fn name(s: &str) -> ClarityName {
    ClarityName::parse(s).unwrap()
}

#[test]
fn variables_are_looked_up_innermost_first() {
    let local = LocalContext {
        variables: vec![(name("x"), Value::Int(1)), (name("y"), Value::Int(2)), (name("x"), Value::Int(3))],
        callable_contracts: vec![(name("c"), QualifiedContractIdentifier::transient())],
    };
    let contract = vec![(name("y"), Value::Int(9)), (name("z"), Value::Int(8))];
    assert_eq!(lookup_variable(b"x", false, &local, &contract), Ok(VariableSource::Local(2)));
    assert_eq!(lookup_variable(b"z", false, &local, &contract), Ok(VariableSource::Contract(1)));
    assert_eq!(lookup_variable(b"c", false, &local, &contract), Ok(VariableSource::CallableContract(0)));
    assert_eq!(lookup_variable(b"x", true, &local, &contract), Ok(VariableSource::Reserved));
    assert_eq!(lookup_variable(b"w", false, &local, &contract), Err(EvalError::UndefinedVariable(b"w".to_vec())));
    assert!(matches!(lookup_variable(b"1x", false, &local, &contract), Err(EvalError::BadSymbolicRepresentation(_))));
}

#[test]
fn eval_step_dispatches_on_the_expression() {
    let es = expand_all(parse("(+ x 1) x 1 ((f) 2) ()").unwrap(), StandardPrincipalData::transient());
    assert_eq!(eval_step(&es[0]), Ok(EvalStep::Apply(b"+".to_vec())));
    assert_eq!(eval_step(&es[1]), Ok(EvalStep::Lookup(b"x".to_vec())));
    assert_eq!(eval_step(&es[2]), Ok(EvalStep::Value));
    assert_eq!(eval_step(&es[3]), Err(EvalError::BadFunctionName));
    assert_eq!(eval_step(&es[4]), Err(EvalError::NonFunctionApplication));
}

#[test]
fn finished_calls_pop_and_keep_the_first_trace() {
    let mut stack = CallStack::new();
    stack.enter(b"foo", true).unwrap();
    stack.enter(b"bar", true).unwrap();
    let inner = finish_call(Err(EvalError::Runtime(RuntimeErrorType::DivisionByZero, None)), &mut stack, b"bar", vec![b"foo".to_vec(), b"bar".to_vec()]);
    assert_eq!(inner, Err(EvalError::Runtime(RuntimeErrorType::DivisionByZero, Some(vec![b"foo".to_vec(), b"bar".to_vec()]))));
    let outer = finish_call(inner, &mut stack, b"foo", vec![b"foo".to_vec()]);
    assert_eq!(outer, Err(EvalError::Runtime(RuntimeErrorType::DivisionByZero, Some(vec![b"foo".to_vec(), b"bar".to_vec()]))));
    assert_eq!(stack.depth(), 0);
    assert_eq!(finish_call(Ok(Value::Int(1)), &mut stack, b"foo", vec![]), Err(EvalError::BadFunctionName));
}

#[test]
fn definitions_keep_names_apart() {
    let mut c = ContractContext {
        variables: vec![],
        functions: vec![],
        persisted_names: vec![],
        defined_traits: vec![],
        implemented_traits: vec![],
    };
    bind_definition(&mut c, DefineResult::PersistedVariable(name("bar"), TypeSignature::IntType, Value::Int(0))).unwrap();
    bind_definition(&mut c, DefineResult::Function(name("set-bar"))).unwrap();
    bind_definition(&mut c, DefineResult::Variable(name("k"), Value::Int(3))).unwrap();
    assert!(matches!(bind_definition(&mut c, DefineResult::Function(name("bar"))), Err(EvalError::NameAlreadyUsed(_))));
    assert!(matches!(bind_definition(&mut c, DefineResult::Variable(name("set-bar"), Value::Int(1))), Err(EvalError::NameAlreadyUsed(_))));
    bind_definition(&mut c, DefineResult::NoDefine).unwrap();
    assert_eq!(c.persisted_names.len(), 1);
    assert_eq!(c.functions.len(), 1);
    assert_eq!(c.variables.len(), 1);
}
